//! The deterministic protocol core: [`RaftNode`], [`Event`], and [`Action`].
//!
//! A [`RaftNode`] is a pure state machine. You drive it with
//! [`step`](RaftNode::step), handing it one [`Event`], and it returns the
//! [`Action`]s the outside world must carry out. It never reads a clock, opens
//! a socket, or touches a disk. What a step does is exactly what
//! [`NodeModel::step`] says.

use crate::config::RaftConfig;
use crate::error::{Error, ErrorModel};
use crate::log::{LogModel, MemoryLog, RaftLog};
use crate::members::{add_id, contains_id, distinct_ids, remove_id, sort_ids};
use crate::message::{
    AppendEntries, AppendEntriesReply, InstallSnapshot, InstallSnapshotReply, Message, PreVote,
    PreVoteReply, RequestVote, RequestVoteReply, TimeoutNow,
};
use crate::model::{ActionModel, EventModel, NodeModel, Progress, StepModel};
use crate::rng::Rng;
use crate::types::{
    copy_bytes, copy_ids, EntryKind, EntryModel, HardState, Index, LogEntry, NodeId, Role, Snapshot,
    SnapshotModel, Term,
};
use vstd::prelude::*;

verus! {

/// An input handed to [`RaftNode::step`].
///
/// A node only ever changes state in response to an event.
#[derive(Debug)]
pub enum Event {
    /// One logical clock tick. The caller decides the wall-clock interval.
    Tick,
    /// A message arrived from a peer.
    Message(Message),
    /// A client proposes a command to be replicated and applied.
    Propose(Vec<u8>),
    /// The application hands over its serialized state through `index`, so that
    /// the log can be compacted behind it.
    Snapshot {
        /// Last index the state includes.
        index: Index,
        /// The serialized state.
        data: Vec<u8>,
    },
    /// A client asks for a voter to be added.
    AddServer(NodeId),
    /// A client asks for a voter to be removed.
    RemoveServer(NodeId),
    /// A client asks the leader to hand over to the given voter.
    TransferLeadership(NodeId),
}

impl View for Event {
    type V = EventModel;

    open spec fn view(&self) -> EventModel {
        match *self {
            Event::Tick => EventModel::Tick,
            Event::Message(m) => EventModel::Message(m@),
            Event::Propose(command) => EventModel::Propose(command@),
            Event::Snapshot { index, data } => EventModel::Snapshot { index, data: data@ },
            Event::AddServer(id) => EventModel::AddServer(id),
            Event::RemoveServer(id) => EventModel::RemoveServer(id),
            Event::TransferLeadership(id) => EventModel::TransferLeadership(id),
        }
    }
}

/// An instruction [`RaftNode::step`] returns for the caller to carry out.
///
/// Execute the actions in the order returned: any state the protocol depends on
/// has been persisted before a [`Send`](Action::Send) is handed out.
///
/// The enum is `#[non_exhaustive]`: a `match` over it must hold a wildcard arm.
#[non_exhaustive]
#[derive(Debug, PartialEq, Eq)]
pub enum Action {
    /// Send `message` to node `to` via the transport.
    Send {
        /// Destination node.
        to: NodeId,
        /// The message to deliver.
        message: Message,
    },
    /// Apply a committed command to the application state machine.
    ///
    /// Applies come in strictly increasing index order, each index at most once.
    Apply {
        /// Index of the committed entry.
        index: Index,
        /// Term the entry was created in.
        term: Term,
        /// The opaque command bytes to apply.
        command: Vec<u8>,
    },
    /// A hint that the log has grown past the snapshot threshold: serialize the
    /// state and hand it back with [`Event::Snapshot`].
    Snapshot {
        /// Last applied index, which the state includes.
        index: Index,
        /// Term of the entry at `index`.
        term: Term,
    },
    /// Replace the application state machine's state by a leader's snapshot.
    RestoreSnapshot {
        /// Last index the state includes.
        index: Index,
        /// Term of the entry at `index`.
        term: Term,
        /// The serialized state.
        data: Vec<u8>,
    },
    /// The set of voters changed; the transport may need to follow.
    MembershipChanged {
        /// The voters, in ascending order.
        members: Vec<NodeId>,
    },
}

impl View for Action {
    type V = ActionModel;

    open spec fn view(&self) -> ActionModel {
        match *self {
            Action::Send { to, message } => ActionModel::Send { to, message: message@ },
            Action::Apply { index, term, command } => ActionModel::Apply {
                index,
                term,
                command: command@,
            },
            Action::Snapshot { index, term } => ActionModel::Snapshot { index, term },
            Action::RestoreSnapshot { index, term, data } => ActionModel::RestoreSnapshot {
                index,
                term,
                data: data@,
            },
            Action::MembershipChanged { members } => ActionModel::MembershipChanged {
                members: members@,
            },
        }
    }
}

impl Clone for Action {
    fn clone(&self) -> (r: Self)
        ensures
            r@ == self@,
    {
        match self {
            Action::Send { to, message } => Action::Send { to: *to, message: message.clone() },
            Action::Apply { index, term, command } => Action::Apply {
                index: *index,
                term: *term,
                command: copy_bytes(command.as_slice()),
            },
            Action::Snapshot { index, term } => Action::Snapshot { index: *index, term: *term },
            Action::RestoreSnapshot { index, term, data } => Action::RestoreSnapshot {
                index: *index,
                term: *term,
                data: copy_bytes(data.as_slice()),
            },
            Action::MembershipChanged { members } => Action::MembershipChanged {
                members: copy_ids(members.as_slice()),
            },
        }
    }
}

/// The models of a list of actions.
pub open spec fn action_models(actions: Seq<Action>) -> Seq<ActionModel> {
    Seq::new(actions.len(), |i: int| actions[i]@)
}

/// Adds `action` to the list.
fn emit(actions: &mut Vec<Action>, action: Action)
    ensures
        action_models(final(actions)@) == action_models(old(actions)@).push(action@),
        action_models(final(actions)@) == action_models(old(actions)@) + seq![action@],
{
    let ghost before = actions@;
    actions.push(action);
    proof {
        assert(action_models(actions@) =~= action_models(before).push(action@));
        assert(action_models(actions@) =~= action_models(before) + seq![action@]);
    }
}

/// A node in a Raft cluster: the deterministic consensus state machine.
///
/// Create one with [`new`](RaftNode::new) (in-memory log) or
/// [`with_log`](RaftNode::with_log) (your own [`RaftLog`]), then drive it with
/// [`step`](RaftNode::step).
pub struct RaftNode<L: RaftLog = MemoryLog> {
    config: RaftConfig,
    log: L,
    role: Role,
    current_term: Term,
    voted_for: Option<NodeId>,
    leader_id: Option<NodeId>,
    commit_index: Index,
    last_applied: Index,
    election_elapsed: u32,
    /// Ticks since the leader was last heard from.
    leader_elapsed: u32,
    heartbeat_elapsed: u32,
    election_timeout: u32,
    votes: Vec<NodeId>,
    rng: Rng,
    members: Vec<NodeId>,
    /// Index of the latest configuration entry in the log, `0` without one.
    config_index: Index,
    progress: Vec<Progress>,
    transfer: Option<NodeId>,
}

impl<L: RaftLog> View for RaftNode<L> {
    type V = NodeModel;

    closed spec fn view(&self) -> NodeModel {
        NodeModel {
            cfg: self.config@,
            log: self.log.state(),
            role: self.role,
            term: self.current_term,
            voted_for: self.voted_for,
            leader: self.leader_id,
            commit: self.commit_index,
            applied: self.last_applied,
            election_elapsed: self.election_elapsed,
            leader_elapsed: self.leader_elapsed,
            heartbeat_elapsed: self.heartbeat_elapsed,
            election_timeout: self.election_timeout,
            votes: self.votes@,
            rng: self.rng@,
            members: self.members@,
            progress: self.progress@,
            transfer: self.transfer,
        }
    }
}

impl RaftNode<MemoryLog> {
    /// Creates a node from `config` backed by an in-memory log.
    ///
    /// The node starts as a follower in term `0`.
    #[must_use]
    pub fn new(config: RaftConfig) -> (r: Self)
        ensures
            r@ == NodeModel::initial(config@, LogModel::empty()),
            r.valid(),
            r.reliable(),
            r.synced(),
    {
        Self::with_log(config, MemoryLog::new())
    }
}

impl<L: RaftLog> RaftNode<L> {
    /// What holds of the node at every point of a step.
    spec fn sound(self) -> bool {
        &&& self@.wf()
        &&& self.config_index == self@.log.config_index()
    }

    /// The node is fit to be driven: it is well formed, all that it committed is
    /// applied, as a leader it has committed all that it may, and no storage failure
    /// has cut a step short.
    pub closed spec fn valid(self) -> bool {
        self.sound() && self@.applied == self@.commit && self@.caught_up()
    }

    /// The node's log refuses nothing but misuse.
    pub closed spec fn reliable(self) -> bool {
        self.log.reliable()
    }

    /// Everything in the node's log is durable: a crash now would lose nothing of
    /// it.
    pub closed spec fn synced(self) -> bool {
        self.log.durable() == self.log.state()
    }

    /// The error with which the node's log last failed.
    pub closed spec fn failure(self) -> ErrorModel {
        self.log.failure()
    }

    /// A node fit to be driven is well formed, so that what holds of every well
    /// formed node holds of it, has applied all that it committed, and as a leader
    /// has committed all that it may.
    pub proof fn law_valid_nodes_are_well_formed(self)
        requires
            self.valid(),
        ensures
            self@.wf(),
            self@.applied == self@.commit,
            self@.caught_up(),
    {
    }

    /// From `self`, a call reached `post` by `expected`, or stopped where its log
    /// failed; `wrote` says whether it wrote to the log. One that writes nothing
    /// does not fail, and one that writes leaves everything durable.
    spec fn reached(
        self,
        post: Self,
        r: Result<(), Error>,
        expected: NodeModel,
        wrote: bool,
    ) -> bool {
        &&& post.reliable() == self.reliable()
        &&& self.reliable() || !wrote ==> r is Ok
        &&& r is Ok ==> post.synced() == (wrote || self.synced())
        &&& match r {
            Ok(_) => post@ == expected,
            Err(e) => e@ is Storage && e@ == post.failure(),
        }
    }

    /// From `self`, the call of [`step`](RaftNode::step) on `event` answered `r`
    /// and left `post`, as [`NodeModel::step`] says, or stopped where its log failed,
    /// with that very error. A step that writes nothing does not fail, and one that
    /// writes, or changes the log at all, hands out no action before everything in
    /// the log is durable.
    pub open spec fn stepped(
        self,
        post: Self,
        r: Result<Vec<Action>, Error>,
        event: EventModel,
    ) -> bool {
        &&& post.reliable() == self.reliable()
        &&& match self@.step(event) {
            StepModel::Refused(error) => {
                &&& r matches Err(e) && e@ == error
                &&& post@ == self@
                &&& post.valid()
                &&& post.synced() == self.synced()
            },
            StepModel::Moved(next, out) => {
                &&& self.reliable() || !self@.writes_on(event) ==> r is Ok
                &&& r is Ok ==> post.synced() == (self@.writes_on(event) || self.synced())
                &&& r is Ok && next.log != self@.log ==> post.synced()
                &&& match r {
                    Ok(actions) => post@ == next && action_models(actions@) == out && post.valid(),
                    Err(e) => e@ is Storage && e@ == post.failure(),
                }
            },
        }
    }

    /// Determinism: nodes in equal states, given equal events, hand out equal actions
    /// and end in equal states, as long as their storage does not fail.
    pub proof fn law_equal_nodes_act_alike(
        a: Self,
        b: Self,
        event: EventModel,
        a_next: Self,
        b_next: Self,
        a_out: Vec<Action>,
        b_out: Vec<Action>,
    )
        requires
            a@ == b@,
            a.stepped(a_next, Ok(a_out), event),
            b.stepped(b_next, Ok(b_out), event),
        ensures
            a_next@ == b_next@,
            action_models(a_out@) == action_models(b_out@),
    {
    }

    /// Creates a node from `config` backed by a caller-supplied `log`.
    ///
    /// The node adopts what the log holds: it resumes in the term it last
    /// persisted, with the vote it last cast, with the snapshot applied, and
    /// with the voters the log names.
    #[must_use]
    pub fn with_log(config: RaftConfig, log: L) -> (r: Self)
        requires
            log.state().wf(),
            log.state().last_index() < u64::MAX,
        ensures
            r@ == NodeModel::initial(config@, log.state()),
            r.valid(),
            r.reliable() == log.reliable(),
            r.synced() == (log.durable() == log.state()),
    {
        let hard = log.hard_state();
        let base: Index = log.snapshot_index();
        let bounds = config.election_timeout();
        let mut rng = Rng::new(config.seed());
        let election_timeout: u32 = rng.gen_range(bounds.0, bounds.1);
        let mut node = RaftNode {
            config,
            log,
            role: Role::Follower,
            current_term: hard.term,
            voted_for: hard.voted_for,
            leader_id: None,
            commit_index: base,
            last_applied: base,
            election_elapsed: 0,
            leader_elapsed: 0,
            heartbeat_elapsed: 0,
            election_timeout,
            votes: Vec::new(),
            rng,
            members: Vec::new(),
            config_index: 0,
            progress: Vec::new(),
            transfer: None,
        };
        proof {
            assert(node@.votes =~= Seq::<NodeId>::empty());
            assert(node@.members =~= Seq::<NodeId>::empty());
            assert(node@.progress =~= Seq::<Progress>::empty());
        }
        let ghost blank = node@;
        let last: Index = node.log.last_index();
        node.config_index = node.find_config(base, last);
        node.members = node.voters_from(node.config_index);
        proof {
            lemma_config_index_is(blank.log, node.config_index as int);
            lemma_voters_by_config_index(blank);
            crate::upkeep::lemma_initial(blank.cfg, blank.log);
            assert(node@ =~= NodeModel { members: blank.voters(), ..blank });
            assert(node@ =~= NodeModel::initial(blank.cfg, blank.log));
        }
        node
    }

    // ---- accessors -------------------------------------------------------

    /// Returns this node's id.
    #[must_use]
    pub fn id(&self) -> (r: NodeId)
        ensures
            r == self@.cfg.id,
    {
        self.config.id()
    }

    /// Returns the role the node currently plays.
    #[must_use]
    pub fn role(&self) -> (r: Role)
        ensures
            r == self@.role,
    {
        self.role
    }

    /// Returns `true` if the node is the leader.
    #[must_use]
    pub fn is_leader(&self) -> (r: bool)
        ensures
            r == (self@.role == Role::Leader),
    {
        self.role == Role::Leader
    }

    /// Returns the node's current term.
    #[must_use]
    pub fn term(&self) -> (r: Term)
        ensures
            r == self@.term,
    {
        self.current_term
    }

    /// Returns the leader the node currently recognises, if any.
    #[must_use]
    pub fn leader(&self) -> (r: Option<NodeId>)
        ensures
            r == self@.leader,
    {
        self.leader_id
    }

    /// Returns the highest log index known to be committed.
    #[must_use]
    pub fn commit_index(&self) -> (r: Index)
        ensures
            r == self@.commit,
    {
        self.commit_index
    }

    /// Returns the highest log index the node has applied.
    #[must_use]
    pub fn last_applied(&self) -> (r: Index)
        ensures
            r == self@.applied,
    {
        self.last_applied
    }

    /// Returns the voters in effect, in ascending order.
    #[must_use]
    pub fn members(&self) -> (r: &[NodeId])
        ensures
            r@ == self@.members,
    {
        self.members.as_slice()
    }

    /// Returns a shared reference to the underlying log.
    #[must_use]
    pub fn log(&self) -> (r: &L)
        ensures
            r.state() == self@.log,
    {
        &self.log
    }

    // ---- the configuration in effect -------------------------------------

    /// Returns the greatest index in `(floor, index]` whose entry puts voters in
    /// place, or `0`.
    fn find_config(&self, floor: Index, index: Index) -> (r: Index)
        requires
            self@.log.wf(),
            self@.log.base_index() <= floor <= index <= self@.log.last_index(),
        ensures
            r == 0 || floor < r <= index,
            r > 0 ==> crate::model::voters_in(self@.log.at(r as int)) is Some,
            forall|i: int|
                floor < i <= index && i > r ==> crate::model::voters_in(
                    #[trigger] self@.log.at(i),
                ) is None,
    {
        let mut at: Index = index;
        while at > floor
            invariant
                self@.log.wf(),
                self@.log.base_index() <= floor <= at <= index <= self@.log.last_index(),
                forall|i: int|
                    at < i <= index ==> crate::model::voters_in(#[trigger] self@.log.at(i)) is None,
            decreases at,
        {
            if let Some(e) = self.log.entry(at) {
                if let Some(ids) = e.members() {
                    if ids.len() > 0 {
                        return at;
                    }
                }
            }
            at = at - 1;
        }
        0
    }

    /// Returns the voters in effect when the latest configuration entry is at
    /// `index`, `0` standing for none.
    fn voters_from(&self, index: Index) -> (r: Vec<NodeId>)
        requires
            self@.log.wf(),
            index > 0 ==> self@.log.holds(index as int) && crate::model::voters_in(
                self@.log.at(index as int),
            ) is Some,
        ensures
            r@ == voters_named(self@, index as int),
    {
        if index > 0 {
            if let Some(e) = self.log.entry(index) {
                if let Some(ids) = e.members() {
                    return sort_ids(ids.as_slice());
                }
            }
        }
        if let Some(s) = self.log.snapshot() {
            if s.config.len() > 0 {
                return sort_ids(s.config.as_slice());
            }
        }
        let mut ids = copy_ids(self.config.peers());
        ids.push(self.config.id());
        assert(ids@ =~= self@.cfg.peers.push(self@.cfg.id));
        sort_ids(ids.as_slice())
    }
}

impl<L: RaftLog> RaftNode<L> {
    // ---- shared helpers --------------------------------------------------

    /// Draws a fresh election timeout and counts from zero again.
    fn reset_election_timer(&mut self)
        ensures
            final(self)@ == old(self)@.timer_reset(),
            final(self).reliable() == old(self).reliable(),
            final(self).synced() == old(self).synced(),
            final(self).config_index == old(self).config_index,
            final(self).log == old(self).log,
    {
        let bounds = self.config.election_timeout();
        self.election_elapsed = 0;
        self.election_timeout = self.rng.gen_range(bounds.0, bounds.1);
    }

    /// Persists the term and the vote.
    fn persist_hard_state(&mut self) -> (r: Result<(), Error>)
        requires
            old(self)@.log.wf(),
        ensures
            old(self).reached(*final(self), r, old(self)@.persisted(), true),
            final(self).config_index == old(self).config_index,
    {
        let state = HardState { term: self.current_term, voted_for: self.voted_for };
        self.log.set_hard_state(state)?;
        self.log.sync()
    }

    /// Follows `leader` in the present term.
    fn follow(&mut self, leader: Option<NodeId>)
        ensures
            final(self)@ == old(self)@.following(leader),
            final(self).reliable() == old(self).reliable(),
            final(self).synced() == old(self).synced(),
            final(self).config_index == old(self).config_index,
    {
        self.role = Role::Follower;
        self.leader_id = leader;
        self.votes = Vec::new();
        self.progress = Vec::new();
        self.transfer = None;
        assert(self@ =~= old(self)@.following(leader));
    }

    /// Adopts `term` as a follower, if it is a later one.
    fn become_follower(&mut self, term: Term) -> (r: Result<(), Error>)
        requires
            old(self).sound(),
        ensures
            old(self).reached(*final(self), r, old(self)@.seen(term), term > old(self)@.term),
            r is Ok ==> final(self).sound(),
    {
        proof {
            crate::upkeep::lemma_seen(self@, term);
        }
        if term > self.current_term {
            self.follow(None);
            self.current_term = term;
            self.voted_for = None;
            assert(self@ =~= NodeModel { term, voted_for: None, ..old(self)@.following(None) });
            self.persist_hard_state()?;
            assert(self@.log.config_index() == old(self)@.log.config_index());
        }
        Ok(())
    }

    // ---- sending ---------------------------------------------------------

    /// Returns the voters other than this node, in the order in which they are
    /// sent to.
    fn others(&self) -> (r: Vec<NodeId>)
        ensures
            r@ == self@.others(),
    {
        let id: NodeId = self.config.id();
        let mut first = copy_ids(self.config.peers());
        first.push(id);
        assert(first@ =~= self@.cfg.peers.push(self@.cfg.id));
        if same_ids(self.members.as_slice(), sort_ids(first.as_slice()).as_slice()) {
            distinct_ids(remove_id(self.config.peers(), id).as_slice())
        } else {
            remove_id(self.members.as_slice(), id)
        }
    }

    /// Returns the next message for a voter, and what is known of its log once
    /// that message is on its way.
    fn next_message(&self, p: Progress) -> (r: (Message, Progress))
        requires
            self@.log.wf(),
            self@.log.last_index() < u64::MAX,
            self@.cfg.usable(),
            1 <= p.next <= self@.log.last_index() + 1,
        ensures
            r.0@ == self@.outgoing(p),
            r.1 == self@.after_sending(p),
    {
        let base: Index = self.log.snapshot_index();
        if p.next <= base {
            if let Some(snapshot) = self.log.snapshot() {
                let message = Message::InstallSnapshot(
                    InstallSnapshot {
                        term: self.current_term,
                        leader: self.config.id(),
                        snapshot,
                    },
                );
                return (message, p);
            }
        }
        let prev: Index = p.next - 1;
        let prev_term: Term = match self.log.term_at(prev) {
            Some(t) => t,
            None => 0,
        };
        let span: u64 = self.config.max_batch() as u64 - 1;
        let room: u64 = u64::MAX - p.next;
        let to: Index = if span <= room {
            p.next + span
        } else {
            u64::MAX
        };
        let entries = self.log.entries(p.next, to);
        proof {
            assert(self@.log.between(p.next as int, to as int) == self@.batch(p));
            assert(crate::types::entry_models(entries@).len() == entries@.len());
        }
        let sent: u64 = entries.len() as u64;
        let next: Index = if p.streaming {
            p.next + sent
        } else {
            p.next
        };
        let message = Message::AppendEntries(
            AppendEntries {
                term: self.current_term,
                leader: self.config.id(),
                prev_log_index: prev,
                prev_log_term: prev_term,
                entries,
                leader_commit: self.commit_index,
            },
        );
        (message, Progress { peer: p.peer, next, matched: p.matched, streaming: p.streaming })
    }

    /// Sends one other voter its next message.
    fn send_to(&mut self, slot: usize, actions: &mut Vec<Action>)
        requires
            old(self).sound(),
            old(self)@.role == Role::Leader,
            slot < old(self)@.progress.len(),
        ensures
            final(self).sound(),
            final(self)@ == old(self)@.sent_to(slot as int).0,
            action_models(final(actions)@) == action_models(old(actions)@) + old(self)@.sent_to(
                slot as int,
            ).1,
            final(self).reliable() == old(self).reliable(),
            final(self).synced() == old(self).synced(),
    {
        proof {
            crate::upkeep::lemma_sent_to(self@, slot as int);
            assert(self@.progress[slot as int].peer == self@.others()[slot as int]);
        }
        let p = self.progress[slot];
        let (message, after) = self.next_message(p);
        self.progress.set(slot, after);
        emit(actions, Action::Send { to: p.peer, message });
        assert(self@ =~= old(self)@.sent_to(slot as int).0);
    }

    /// Sends every other voter its next message.
    fn broadcast(&mut self, actions: &mut Vec<Action>)
        requires
            old(self).sound(),
            old(self)@.role == Role::Leader,
        ensures
            final(self).sound(),
            final(self)@ == old(self)@.broadcast().0,
            action_models(final(actions)@) == action_models(old(actions)@)
                + old(self)@.broadcast().1,
            final(self).reliable() == old(self).reliable(),
            final(self).synced() == old(self).synced(),
    {
        let ghost start = self@;
        let ghost prior = action_models(actions@);
        let ghost goal = start.broadcast();
        proof {
            crate::upkeep::lemma_broadcast(start);
            assert(goal.1.take(0) =~= Seq::<ActionModel>::empty());
            assert(prior + goal.1.take(0) =~= prior);
        }
        let mut slot: usize = 0;
        while slot < self.progress.len()
            invariant
                start.wf(),
                start.role == Role::Leader,
                goal == start.broadcast(),
                slot <= start.progress.len(),
                self@.progress.len() == start.progress.len(),
                self@ == (NodeModel { progress: self@.progress, ..start }),
                forall|i: int|
                    0 <= i < slot ==> #[trigger] self@.progress[i] == start.after_sending(
                        start.progress[i],
                    ),
                forall|i: int|
                    slot <= i < start.progress.len() ==> #[trigger] self@.progress[i]
                        == start.progress[i],
                action_models(actions@) == prior + goal.1.take(slot as int),
                self.reliable() == old(self).reliable(),
                self.synced() == old(self).synced(),
                self.config_index == old(self).config_index,
            decreases start.progress.len() - slot,
        {
            let p = self.progress[slot];
            assert(p == start.progress[slot as int]);
            assert(p.peer == start.others()[slot as int]);
            let (message, after) = self.next_message(p);
            self.progress.set(slot, after);
            emit(actions, Action::Send { to: p.peer, message });
            proof {
                assert(goal.1.take(slot + 1) =~= goal.1.take(slot as int).push(
                    goal.1[slot as int],
                ));
                assert(prior + goal.1.take(slot + 1) =~= (prior + goal.1.take(slot as int)).push(
                    goal.1[slot as int],
                ));
            }
            slot = slot + 1;
        }
        proof {
            assert(goal.1.take(slot as int) =~= goal.1);
            assert(self@.progress =~= goal.0.progress);
            assert(self@ =~= goal.0);
        }
    }

    // ---- committing and applying -----------------------------------------

    /// Hands out everything committed and not yet applied.
    fn drain_applies(&mut self, actions: &mut Vec<Action>)
        requires
            old(self).sound(),
        ensures
            final(self).sound(),
            final(self)@ == old(self)@.drained().0,
            action_models(final(actions)@) == action_models(old(actions)@) + old(self)@.drained().1,
            final(self).reliable() == old(self).reliable(),
            final(self).synced() == old(self).synced(),
    {
        let ghost start = self@;
        let ghost prior = action_models(actions@);
        let from: Index = self.last_applied;
        proof {
            crate::upkeep::lemma_drained(start);
            assert(start.log.between(from + 1, from as int) =~= Seq::<EntryModel>::empty());
            assert(prior + crate::model::applies(Seq::<EntryModel>::empty()) =~= prior);
        }
        while self.last_applied < self.commit_index
            invariant
                start.wf(),
                from == start.applied,
                from <= self.last_applied <= start.commit,
                self@ == (NodeModel { applied: self.last_applied, ..start }),
                action_models(actions@) == prior + crate::model::applies(
                    start.log.between(from + 1, self.last_applied as int),
                ),
                self.reliable() == old(self).reliable(),
                self.synced() == old(self).synced(),
                self.config_index == old(self).config_index,
            decreases start.commit - self.last_applied,
        {
            let ghost before = self.last_applied as int;
            self.last_applied = self.last_applied + 1;
            proof {
                let a = start.log.between(from + 1, before);
                let b = start.log.between(from + 1, before + 1);
                assert(b =~= a.push(start.log.at(before + 1)));
                assert(b.drop_last() =~= a);
            }
            if let Some(entry) = self.log.entry(self.last_applied) {
                match entry.kind {
                    EntryKind::Normal => {
                        emit(
                            actions,
                            Action::Apply {
                                index: entry.index,
                                term: entry.term,
                                command: entry.command,
                            },
                        );
                        assert(action_models(actions@) =~= prior + crate::model::applies(
                            start.log.between(from + 1, before + 1),
                        ));
                    },
                    EntryKind::Config => {},
                }
            }
        }
        assert(self@ =~= start.drained().0);
        let threshold: usize = self.config.snapshot_threshold();
        let base: Index = self.log.snapshot_index();
        if from < self.commit_index && threshold > 0 && self.commit_index - base
            >= threshold as u64 {
            let term: Term = match self.log.term_at(self.commit_index) {
                Some(t) => t,
                None => 0,
            };
            emit(actions, Action::Snapshot { index: self.commit_index, term });
        }
        assert(action_models(actions@) =~= prior + start.drained().1);
    }

    /// Returns the position of what is known of `peer`.
    fn slot(&self, peer: NodeId) -> (r: usize)
        ensures
            r == crate::model::slot_of(self@.progress, peer),
            r <= self@.progress.len(),
    {
        proof {
            crate::upkeep::lemma_slot_of(self@.progress, peer);
        }
        let mut i: usize = 0;
        while i < self.progress.len()
            invariant
                i <= self@.progress.len(),
                forall|k: int| 0 <= k < i ==> (#[trigger] self@.progress[k]).peer != peer,
            decreases self@.progress.len() - i,
        {
            if self.progress[i].peer == peer {
                proof {
                    crate::upkeep::lemma_slot_of(self@.progress, peer);
                    assert(self@.progress[i as int].peer == peer);
                }
                return i;
            }
            i = i + 1;
        }
        proof {
            crate::upkeep::lemma_slot_of(self@.progress, peer);
        }
        i
    }

    /// Returns the highest index known to be in `member`'s log.
    fn matched(&self, member: NodeId) -> (r: Index)
        requires
            self.sound(),
            self@.role == Role::Leader,
            self@.members.contains(member),
        ensures
            r == self@.matched(member),
            r <= self@.log.last_index(),
    {
        if member == self.config.id() {
            self.log.last_index()
        } else {
            let at: usize = self.slot(member);
            proof {
                crate::upkeep::lemma_every_other_voter_is_tracked(self@, member);
            }
            self.progress[at].matched
        }
    }

    /// Counts the voters known to hold the log through `index`.
    fn count_holders(&self, index: Index) -> (r: usize)
        requires
            self.sound(),
            self@.role == Role::Leader,
        ensures
            r == self@.holders(index as int).len(),
    {
        let ghost holds = self@.holds_through(index as int);
        let mut count: usize = 0;
        let mut i: usize = 0;
        reveal(Seq::filter);
        while i < self.members.len()
            invariant
                self.sound(),
                self@.role == Role::Leader,
                i <= self@.members.len(),
                holds == self@.holds_through(index as int),
                count <= i,
                count == self@.members.take(i as int).filter(holds).len(),
            decreases self@.members.len() - i,
        {
            proof {
                reveal(Seq::filter);
                assert(self@.members.take(i + 1).drop_last() =~= self@.members.take(i as int));
            }
            let member: NodeId = self.members[i];
            assert(self@.members.contains(member));
            let through: Index = self.matched(member);
            if through >= index {
                count = count + 1;
            }
            i = i + 1;
        }
        assert(self@.members.take(self@.members.len() as int) =~= self@.members);
        count
    }

    /// Returns the highest index that a majority of the voters holds.
    fn majority_index(&self) -> (r: Index)
        requires
            self.sound(),
            self@.role == Role::Leader,
        ensures
            r <= self@.log.last_index(),
            forall|n: int| n > r ==> (#[trigger] self@.holders(n)).len() < self@.quorum(),
            r > 0 ==> self@.holders(r as int).len() >= self@.quorum(),
    {
        let quorum: usize = self.members.len() / 2 + 1;
        let mut best: Index = 0;
        let mut i: usize = 0;
        while i < self.members.len()
            invariant
                self.sound(),
                self@.role == Role::Leader,
                quorum == self@.quorum(),
                i <= self@.members.len(),
                best <= self@.log.last_index(),
                best > 0 ==> self@.holders(best as int).len() >= quorum,
                forall|k: int|
                    0 <= k < i && self@.holders(
                        self@.matched(#[trigger] self@.members[k]),
                    ).len() >= quorum ==> self@.matched(self@.members[k]) <= best,
            decreases self@.members.len() - i,
        {
            assert(self@.members.contains(self@.members[i as int]));
            let through: Index = self.matched(self.members[i]);
            if through > best && self.count_holders(through) >= quorum {
                best = through;
            }
            i = i + 1;
        }
        proof {
            assert forall|n: int| n > best implies (#[trigger] self@.holders(n)).len()
                < self@.quorum() by {
                if self@.holders(n).len() >= self@.quorum() {
                    lemma_a_majority_ends_at_a_voter(self@, n);
                    let k = choose|k: int|
                        0 <= k < self@.members.len() && self@.matched(#[trigger] self@.members[k])
                            >= n && self@.holders(self@.matched(self@.members[k])).len()
                            >= self@.quorum();
                    assert(self@.matched(self@.members[k]) <= best);
                }
            }
        }
        best
    }

    /// Returns the index that the leader may commit through.
    fn find_commit(&self) -> (r: Index)
        requires
            self.sound(),
            self@.role == Role::Leader,
        ensures
            r == self@.commit_target(self@.log.last_index()),
    {
        let through: Index = self.majority_index();
        let mut at: Index = through;
        proof {
            lemma_commit_target_below(self@, self@.log.last_index(), through as int);
        }
        while at > self.commit_index
            invariant
                self.sound(),
                self@.role == Role::Leader,
                at <= through <= self@.log.last_index(),
                through > 0 ==> self@.holders(through as int).len() >= self@.quorum(),
                self@.commit_target(self@.log.last_index()) == self@.commit_target(at as int),
            decreases at,
        {
            proof {
                lemma_holders_shrink(self@, at as int, through as int);
            }
            if let Some(term) = self.log.term_at(at) {
                if term == self.current_term {
                    return at;
                }
            }
            at = at - 1;
        }
        self.commit_index
    }

    /// Commits what the leader may commit, and hands it out.
    fn advance_commit_as_leader(&mut self, actions: &mut Vec<Action>)
        requires
            old(self).sound(),
            old(self)@.role == Role::Leader,
        ensures
            final(self).sound(),
            final(self)@ == old(self)@.committed().0,
            action_models(final(actions)@) == action_models(old(actions)@)
                + old(self)@.committed().1,
            final(self).reliable() == old(self).reliable(),
            final(self).synced() == old(self).synced(),
    {
        let target: Index = self.find_commit();
        proof {
            crate::upkeep::lemma_committed(self@);
            crate::upkeep::lemma_commit_target(self@, self@.log.last_index());
        }
        if target > self.commit_index {
            let ghost start = self@;
            self.commit_index = target;
            proof {
                assert(self@ =~= NodeModel { commit: target, ..start });
                assert(self@.voters() == start.voters());
                assert(self@.others() == start.others());
            }
            self.drain_applies(actions);
            if !contains_id(self.members.as_slice(), self.config.id()) && self.config_index
                <= self.commit_index {
                self.follow(None);
            }
        } else {
            assert(action_models(actions@) + Seq::<ActionModel>::empty() =~= action_models(
                actions@,
            ));
        }
    }
}

impl<L: RaftLog> RaftNode<L> {
    // ---- tick handling ---------------------------------------------------

    fn tick(&mut self, actions: &mut Vec<Action>) -> (r: Result<(), Error>)
        requires
            old(self).sound(),
            old(self)@.has_room_for(EventModel::Tick),
        ensures
            old(self).reached(
                *final(self),
                r,
                old(self)@.on_tick().0,
                old(self)@.writes_on(EventModel::Tick),
            ),
            r is Ok ==> final(self).sound(),
            r is Ok ==> action_models(final(actions)@) == action_models(old(actions)@)
                + old(self)@.on_tick().1,
    {
        let ghost start = self@;
        proof {
            crate::upkeep::lemma_on_tick(start);
            assert(action_models(actions@) + Seq::<ActionModel>::empty() =~= action_models(
                actions@,
            ));
        }
        match self.role {
            Role::Leader => {
                if self.transfer.is_some() {
                    if self.election_elapsed >= self.election_timeout || self.election_elapsed + 1
                        >= self.election_timeout {
                        self.transfer = None;
                        self.election_elapsed = 0;
                    } else {
                        self.election_elapsed = self.election_elapsed + 1;
                    }
                }
                proof {
                    assert(self@ =~= start.awaiting_transfer());
                    assert(self@.voters() == start.voters());
                    assert(self@.others() == start.others());
                }
                if self.heartbeat_elapsed + 1 >= self.config.heartbeat_interval() {
                    self.heartbeat_elapsed = 0;
                    proof {
                        assert(self@ =~= NodeModel {
                            heartbeat_elapsed: 0,
                            ..start.awaiting_transfer()
                        });
                        assert(self@.voters() == start.voters());
                        assert(self@.others() == start.others());
                    }
                    self.broadcast(actions);
                } else {
                    self.heartbeat_elapsed = self.heartbeat_elapsed + 1;
                    assert(self@ =~= start.on_tick().0);
                }
            },
            _ => {
                if self.election_elapsed < u32::MAX {
                    self.election_elapsed = self.election_elapsed + 1;
                }
                if self.leader_elapsed < u32::MAX {
                    self.leader_elapsed = self.leader_elapsed + 1;
                }
                proof {
                    assert(self@ =~= start.ticked());
                    assert(self@.voters() == start.voters());
                    assert(self@.others() == start.others());
                }
                if contains_id(self.members.as_slice(), self.config.id()) && self.election_elapsed
                    >= self.election_timeout {
                    self.start_election(false, actions)?;
                }
            },
        }
        Ok(())
    }

    /// Stands for election in the next term.
    fn start_election(&mut self, force: bool, actions: &mut Vec<Action>) -> (r: Result<(), Error>)
        requires
            old(self).sound(),
            old(self)@.term < u64::MAX,
            old(self)@.is_voter(),
        ensures
            old(self).reached(*final(self), r, old(self)@.election(force).0, true),
            r is Ok ==> final(self).sound(),
            r is Ok ==> action_models(final(actions)@) == action_models(old(actions)@)
                + old(self)@.election(force).1,
    {
        let ghost start = self@;
        let ghost prior = action_models(actions@);
        proof {
            crate::upkeep::lemma_campaigning(start);
        }
        self.role = Role::Candidate;
        self.current_term = self.current_term + 1;
        self.voted_for = Some(self.config.id());
        self.leader_id = None;
        self.votes = Vec::new();
        self.votes.push(self.config.id());
        self.progress = Vec::new();
        self.transfer = None;
        self.reset_election_timer();
        self.persist_hard_state()?;
        proof {
            assert(self@ =~= start.campaigning());
            assert(self@.log.config_index() == start.log.config_index());
        }
        if 1 >= self.members.len() / 2 + 1 {
            self.become_leader(actions);
            return Ok(());
        }
        let last_log_index: Index = self.log.last_index();
        let last_log_term: Term = self.log.last_term();
        let others = self.others();
        let ghost goal = start.election(force).1;
        let mut i: usize = 0;
        proof {
            assert(prior + goal.take(0) =~= prior);
        }
        while i < others.len()
            invariant
                i <= others@.len(),
                others@ == self@.others(),
                goal.len() == others@.len(),
                forall|k: int|
                    0 <= k < goal.len() ==> #[trigger] goal[k] == (ActionModel::Send {
                        to: others@[k],
                        message: self@.vote_request(force),
                    }),
                last_log_index == self@.log.last_index(),
                last_log_term == self@.log.last_term(),
                action_models(actions@) == prior + goal.take(i as int),
            decreases others@.len() - i,
        {
            emit(
                actions,
                Action::Send {
                    to: others[i],
                    message: Message::RequestVote(
                        RequestVote {
                            term: self.current_term,
                            candidate: self.config.id(),
                            last_log_index,
                            last_log_term,
                            force,
                        },
                    ),
                },
            );
            proof {
                assert(goal.take(i + 1) =~= goal.take(i as int).push(goal[i as int]));
                assert(prior + goal.take(i + 1) =~= (prior + goal.take(i as int)).push(
                    goal[i as int],
                ));
            }
            i = i + 1;
        }
        assert(goal.take(i as int) =~= goal);
        Ok(())
    }

    /// Takes up leadership of the present term.
    fn become_leader(&mut self, actions: &mut Vec<Action>)
        requires
            old(self).sound(),
            old(self)@.voted_for == Some(old(self)@.cfg.id),
        ensures
            final(self).sound(),
            final(self)@ == old(self)@.elected().0,
            action_models(final(actions)@) == action_models(old(actions)@) + old(self)@.elected().1,
            final(self).reliable() == old(self).reliable(),
            final(self).synced() == old(self).synced(),
    {
        let ghost start = self@;
        proof {
            crate::upkeep::lemma_leading(start);
        }
        let next: Index = self.log.last_index() + 1;
        let others = self.others();
        let mut progress: Vec<Progress> = Vec::new();
        let mut i: usize = 0;
        while i < others.len()
            invariant
                i <= others@.len(),
                progress@.len() == i,
                forall|k: int|
                    0 <= k < i ==> #[trigger] progress@[k] == Progress::fresh(others@[k], next),
            decreases others@.len() - i,
        {
            progress.push(Progress { peer: others[i], next, matched: 0, streaming: false });
            i = i + 1;
        }
        self.role = Role::Leader;
        self.leader_id = Some(self.config.id());
        self.heartbeat_elapsed = 0;
        self.progress = progress;
        self.transfer = None;
        proof {
            assert(self@.progress =~= start.leading().progress);
            assert(self@ =~= start.leading());
        }
        self.broadcast_and_commit(actions);
    }

    /// Sends every other voter its next message, then commits what may be.
    fn broadcast_and_commit(&mut self, actions: &mut Vec<Action>)
        requires
            old(self).sound(),
            old(self)@.role == Role::Leader,
        ensures
            final(self).sound(),
            final(self)@ == old(self)@.broadcast_and_committed().0,
            action_models(final(actions)@) == action_models(old(actions)@)
                + old(self)@.broadcast_and_committed().1,
            final(self).reliable() == old(self).reliable(),
            final(self).synced() == old(self).synced(),
    {
        let ghost prior = action_models(actions@);
        let ghost start = self@;
        proof {
            crate::upkeep::lemma_broadcast(start);
        }
        self.broadcast(actions);
        self.advance_commit_as_leader(actions);
        assert(action_models(actions@) =~= prior + start.broadcast_and_committed().1);
    }

    // ---- requests of clients ---------------------------------------------

    /// Returns why a client's request cannot be taken, if it cannot.
    fn refuse(&self) -> (r: Option<Error>)
        ensures
            match r {
                Some(e) => self@.refusal() == Some(e@),
                None => self@.refusal() is None,
            },
    {
        if self.role != Role::Leader {
            Some(Error::NotLeader { leader: self.leader_id })
        } else if self.transfer.is_some() {
            Some(Error::NotLeader { leader: self.transfer })
        } else {
            None
        }
    }

    /// Appends one entry to the log and flushes it.
    fn append_entry(&mut self, entry: LogEntry) -> (r: Result<(), Error>)
        requires
            old(self)@.log.wf(),
            old(self)@.log.continued_by(seq![entry@]),
        ensures
            old(self).reached(*final(self), r, old(self)@.appended(entry@), true),
            final(self).config_index == old(self).config_index,
    {
        let mut batch: Vec<LogEntry> = Vec::new();
        batch.push(entry);
        assert(crate::types::entry_models(batch@) =~= seq![entry@]);
        self.log.append(batch.as_slice())?;
        self.log.sync()
    }

    fn propose(&mut self, command: Vec<u8>) -> (r: Result<Vec<Action>, Error>)
        requires
            old(self).valid(),
            old(self)@.has_room_for(EventModel::Propose(command@)),
        ensures
            old(self).stepped(*final(self), r, EventModel::Propose(command@)),
    {
        let ghost start = self@;
        let mut actions: Vec<Action> = Vec::new();
        if let Some(e) = self.refuse() {
            return Err(e);
        }
        proof {
            crate::laws::law_only_writes_change_the_log(start, EventModel::Propose(command@));
            crate::laws::law_everything_committed_is_applied(start, EventModel::Propose(command@));
            crate::laws::law_a_leader_has_committed_all_it_may(start, EventModel::Propose(command@));
        }
        let index: Index = self.log.last_index() + 1;
        let entry = LogEntry::new(self.current_term, index, command);
        let ghost model = entry@;
        proof {
            assert(model == start.next_command(command@));
            crate::upkeep::lemma_voters_after_command(start, model);
            crate::upkeep::lemma_command_appended(start, command@);
            lemma_config_index_after_append(start.log, model);
        }
        self.append_entry(entry)?;
        self.broadcast_and_commit(&mut actions);
        assert(action_models(actions@) =~= start.appended(model).broadcast_and_committed().1);
        Ok(actions)
    }

    /// Puts the voters `ids` in place, if `wanted`.
    fn change_members(
        &mut self,
        ids: Vec<NodeId>,
        wanted: bool,
        Ghost(event): Ghost<EventModel>,
    ) -> (r: Result<Vec<Action>, Error>)
        requires
            old(self).valid(),
            old(self)@.has_room_for(event),
            event is AddServer || event is RemoveServer,
            old(self)@.step(event) == old(self)@.on_membership(ids@, wanted),
            old(self)@.starts_change(event) == (old(self)@.refusal() is None && !old(
                self,
            )@.change_in_flight() && wanted),
            wanted ==> crate::members::ascending(ids@) && ids@.len() > 0,
        ensures
            old(self).stepped(*final(self), r, event),
    {
        let ghost start = self@;
        let mut actions: Vec<Action> = Vec::new();
        assert(action_models(actions@) =~= Seq::<ActionModel>::empty());
        if let Some(e) = self.refuse() {
            return Err(e);
        }
        if self.config_index > self.commit_index {
            return Err(Error::ConfigInProgress);
        }
        if !wanted {
            return Ok(actions);
        }
        proof {
            crate::laws::law_only_writes_change_the_log(start, event);
            crate::laws::law_everything_committed_is_applied(start, event);
            crate::laws::law_a_leader_has_committed_all_it_may(start, event);
        }
        let index: Index = self.log.last_index() + 1;
        let entry = LogEntry::config(self.current_term, index, ids.as_slice());
        let ghost model = entry@;
        proof {
            crate::upkeep::lemma_voters_after_config(start, ids@);
            crate::upkeep::lemma_changed(start, ids@);
            crate::upkeep::lemma_on_change(start, ids@);
        }
        self.append_entry(entry)?;
        let ghost grown = NodeModel { members: ids@, ..start.appended(model) };
        emit(&mut actions, Action::MembershipChanged { members: copy_ids(ids.as_slice()) });
        self.members = ids;
        self.config_index = index;
        assert(self@ =~= grown);
        let others = self.others();
        let mut progress: Vec<Progress> = Vec::new();
        let mut i: usize = 0;
        let next: Index = index + 1;
        while i < others.len()
            invariant
                i <= others@.len(),
                others@ == grown.others(),
                self@ == grown,
                grown.log.last_index() + 1 == next,
                progress@.len() == i,
                forall|k: int| 0 <= k < i ==> #[trigger] progress@[k] == grown.regrouped()[k],
            decreases others@.len() - i,
        {
            let at: usize = self.slot(others[i]);
            if at < self.progress.len() {
                progress.push(self.progress[at]);
            } else {
                progress.push(Progress { peer: others[i], next, matched: 0, streaming: false });
            }
            i = i + 1;
        }
        self.progress = progress;
        proof {
            assert(self@.progress =~= grown.regrouped());
            assert(self@ =~= NodeModel { progress: grown.regrouped(), ..grown });
            lemma_config_index_after_config(start.log, model, ids@);
        }
        self.broadcast_and_commit(&mut actions);
        assert(action_models(actions@) =~= start.on_change(ids@).1);
        Ok(actions)
    }

    fn add_server(&mut self, id: NodeId) -> (r: Result<Vec<Action>, Error>)
        requires
            old(self).valid(),
            old(self)@.has_room_for(EventModel::AddServer(id)),
        ensures
            old(self).stepped(*final(self), r, EventModel::AddServer(id)),
    {
        let wanted: bool = !contains_id(self.members.as_slice(), id);
        let mut ids = copy_ids(self.members.as_slice());
        add_id(&mut ids, id);
        proof {
            crate::members::lemma_insert_id(self@.members, id);
        }
        self.change_members(ids, wanted, Ghost(EventModel::AddServer(id)))
    }

    fn remove_server(&mut self, id: NodeId) -> (r: Result<Vec<Action>, Error>)
        requires
            old(self).valid(),
            old(self)@.has_room_for(EventModel::RemoveServer(id)),
        ensures
            old(self).stepped(*final(self), r, EventModel::RemoveServer(id)),
    {
        let wanted: bool = contains_id(self.members.as_slice(), id) && self.members.len() > 1;
        let ids = remove_id(self.members.as_slice(), id);
        proof {
            crate::members::lemma_without(self@.members, id);
        }
        self.change_members(ids, wanted, Ghost(EventModel::RemoveServer(id)))
    }

    /// Signals the target of a transfer to take over, once it is caught up.
    fn hand_over(&self, slot: usize, actions: &mut Vec<Action>)
        requires
            self@.log.wf(),
            slot < self@.progress.len(),
        ensures
            action_models(final(actions)@) == action_models(old(actions)@) + self@.handover(
                slot as int,
            ),
    {
        let p = self.progress[slot];
        let last: Index = self.log.last_index();
        if let Some(target) = self.transfer {
            if target == p.peer && p.matched == last {
                emit(
                    actions,
                    Action::Send {
                        to: target,
                        message: Message::TimeoutNow(
                            TimeoutNow { term: self.current_term, leader: self.config.id() },
                        ),
                    },
                );
                return;
            }
        }
        assert(action_models(actions@) + Seq::<ActionModel>::empty() =~= action_models(actions@));
    }

    fn transfer_leadership(&mut self, target: NodeId) -> (r: Result<Vec<Action>, Error>)
        requires
            old(self).valid(),
        ensures
            old(self).stepped(*final(self), r, EventModel::TransferLeadership(target)),
    {
        let ghost start = self@;
        let mut actions: Vec<Action> = Vec::new();
        assert(action_models(actions@) =~= Seq::<ActionModel>::empty());
        if self.role != Role::Leader {
            return Err(Error::NotLeader { leader: self.leader_id });
        }
        let slot: usize = self.slot(target);
        proof {
            crate::upkeep::lemma_slot_of(start.progress, target);
            crate::upkeep::lemma_on_transfer(start, target);
            crate::laws::law_only_writes_change_the_log(
                start,
                EventModel::TransferLeadership(target),
            );
            crate::laws::law_everything_committed_is_applied(
                start,
                EventModel::TransferLeadership(target),
            );
            crate::laws::law_a_leader_has_committed_all_it_may(
                start,
                EventModel::TransferLeadership(target),
            );
        }
        if slot >= self.progress.len() {
            return Ok(actions);
        }
        self.transfer = Some(target);
        self.election_elapsed = 0;
        let ghost next = NodeModel { transfer: Some(target), election_elapsed: 0, ..start };
        proof {
            assert(self@ =~= next);
            assert(next.voters() == start.voters());
            assert(next.others() == start.others());
            assert(start.progress[slot as int].peer == start.others()[slot as int]);
            assert(start.others().contains(target));
            assert(next.wf());
        }
        let last: Index = self.log.last_index();
        if self.progress[slot].matched == last {
            self.hand_over(slot, &mut actions);
            assert(action_models(actions@) =~= next.handover(slot as int));
        } else {
            self.send_to(slot, &mut actions);
            assert(action_models(actions@) =~= next.sent_to(slot as int).1);
        }
        Ok(actions)
    }

    fn compact(&mut self, index: Index, data: Vec<u8>) -> (r: Result<(), Error>)
        requires
            old(self).sound(),
        ensures
            old(self).reached(
                *final(self),
                r,
                old(self)@.on_snapshot(index, data@),
                old(self)@.log.base_index() < index <= old(self)@.applied,
            ),
            r is Ok ==> final(self).sound(),
    {
        let ghost start = self@;
        proof {
            crate::upkeep::lemma_on_snapshot(start, index, data@);
        }
        let base: Index = self.log.snapshot_index();
        if index <= base || index > self.last_applied {
            return Ok(());
        }
        let term: Term = match self.log.term_at(index) {
            Some(t) => t,
            None => 0,
        };
        let at: Index = self.find_config(base, index);
        let voters = self.voters_from(at);
        proof {
            lemma_voters_through(start, index as int, at as int);
        }
        let snapshot = Snapshot::with_config(index, term, voters, data);
        let ghost model = snapshot@;
        self.log.apply_snapshot(&snapshot)?;
        self.log.sync()?;
        if self.config_index <= index {
            self.config_index = 0;
        }
        proof {
            assert(self@ =~= start.on_snapshot(index, data@));
            lemma_config_index_after_compaction(start.log, model);
        }
        Ok(())
    }
}

impl<L: RaftLog> RaftNode<L> {
    // ---- message handling ------------------------------------------------

    /// Says whether a recognised leader is still active.
    fn leader_is_active(&self) -> (r: bool)
        ensures
            r == self@.leader_is_active(),
    {
        self.role == Role::Leader || (self.leader_id.is_some() && self.leader_elapsed
            < self.config.election_timeout().0)
    }

    /// The election restriction: a candidate's log must be at least as up to date
    /// as ours.
    fn candidate_log_up_to_date(&self, term: Term, index: Index) -> (r: bool)
        requires
            self@.log.wf(),
        ensures
            r == self@.up_to_date(term, index),
    {
        let my_term: Term = self.log.last_term();
        let my_index: Index = self.log.last_index();
        term > my_term || (term == my_term && index >= my_index)
    }

    fn handle_pre_vote(&self, m: PreVote, actions: &mut Vec<Action>)
        requires
            self@.log.wf(),
        ensures
            action_models(final(actions)@) == action_models(old(actions)@) + self@.on_pre_vote(m),
    {
        let vote_granted: bool = m.term >= self.current_term && self.candidate_log_up_to_date(
            m.last_log_term,
            m.last_log_index,
        ) && !self.leader_is_active();
        emit(
            actions,
            Action::Send {
                to: m.candidate,
                message: Message::PreVoteReply(
                    PreVoteReply {
                        term: self.current_term,
                        vote_granted,
                        from: self.config.id(),
                    },
                ),
            },
        );
    }

    fn handle_request_vote(&mut self, m: RequestVote, actions: &mut Vec<Action>) -> (r: Result<
        (),
        Error,
    >)
        requires
            old(self).sound(),
        ensures
            old(self).reached(
                *final(self),
                r,
                old(self)@.on_request_vote(m).0,
                old(self)@.grants(m),
            ),
            r is Ok ==> final(self).sound(),
            r is Ok ==> action_models(final(actions)@) == action_models(old(actions)@)
                + old(self)@.on_request_vote(m).1,
    {
        let ghost start = self@;
        proof {
            crate::upkeep::lemma_on_request_vote(start, m);
        }
        let free: bool = match self.voted_for {
            None => true,
            Some(c) => c == m.candidate,
        };
        let granted: bool = m.term >= self.current_term && free && self.candidate_log_up_to_date(
            m.last_log_term,
            m.last_log_index,
        );
        if granted {
            self.voted_for = Some(m.candidate);
            self.persist_hard_state()?;
            self.reset_election_timer();
            proof {
                assert(self@ =~= start.on_request_vote(m).0);
                assert(self@.log.config_index() == start.log.config_index());
            }
        }
        emit(
            actions,
            Action::Send {
                to: m.candidate,
                message: Message::RequestVoteReply(
                    RequestVoteReply {
                        term: self.current_term,
                        vote_granted: granted,
                        from: self.config.id(),
                    },
                ),
            },
        );
        Ok(())
    }

    fn handle_vote_reply(&mut self, m: RequestVoteReply, actions: &mut Vec<Action>)
        requires
            old(self).sound(),
        ensures
            final(self).sound(),
            final(self)@ == old(self)@.on_vote_reply(m).0,
            action_models(final(actions)@) == action_models(old(actions)@)
                + old(self)@.on_vote_reply(m).1,
            final(self).reliable() == old(self).reliable(),
            final(self).synced() == old(self).synced(),
    {
        let ghost start = self@;
        assert(action_models(actions@) + Seq::<ActionModel>::empty() =~= action_models(actions@));
        if self.role != Role::Candidate || m.term != self.current_term || !m.vote_granted {
            return;
        }
        if contains_id(self.members.as_slice(), m.from) && !contains_id(
            self.votes.as_slice(),
            m.from,
        ) {
            self.votes.push(m.from);
            proof {
                assert(self@ =~= start.counting(m.from));
                assert(self@.voters() == start.voters());
                assert(self@.wf());
            }
            if self.votes.len() >= self.members.len() / 2 + 1 {
                self.become_leader(actions);
            }
        }
    }

    /// Recognises `leader` as the leader of the present term.
    fn recognise(&mut self, leader: NodeId)
        requires
            old(self).sound(),
        ensures
            final(self).sound(),
            final(self)@ == old(self)@.recognising(leader),
            final(self).reliable() == old(self).reliable(),
            final(self).synced() == old(self).synced(),
    {
        proof {
            crate::upkeep::lemma_recognising(self@, leader);
        }
        self.follow(Some(leader));
        self.leader_elapsed = 0;
        assert(self@ =~= NodeModel { leader_elapsed: 0, ..old(self)@.following(Some(leader)) });
        self.reset_election_timer();
    }

    /// Answers an append.
    fn reply_to_append(
        &self,
        to: NodeId,
        success: bool,
        match_index: Index,
        conflict_index: Index,
        conflict_term: Term,
        actions: &mut Vec<Action>,
    )
        ensures
            action_models(final(actions)@) == action_models(old(actions)@) + self@.append_reply(
                to,
                success,
                match_index as int,
                conflict_index as int,
                conflict_term,
            ),
    {
        emit(
            actions,
            Action::Send {
                to,
                message: Message::AppendEntriesReply(
                    AppendEntriesReply {
                        term: self.current_term,
                        success,
                        from: self.config.id(),
                        match_index,
                        conflict_index,
                        conflict_term,
                    },
                ),
            },
        );
    }

    /// Returns the first index of the run of entries of one term that ends at
    /// `index`.
    fn run_start(&self, index: Index) -> (r: Index)
        requires
            self@.log.wf(),
        ensures
            r == self@.log.run_start(index as int),
    {
        let base: Index = self.log.snapshot_index();
        let last: Index = self.log.last_index();
        if index <= base || index > last {
            return index;
        }
        let mut at: Index = index;
        while at - 1 > base
            invariant
                self@.log.wf(),
                base == self@.log.base_index(),
                last == self@.log.last_index(),
                base < at <= index <= last,
                self@.log.run_start(index as int) == self@.log.run_start(at as int),
            decreases at,
        {
            let here: Option<Term> = self.log.term_at(at);
            let before: Option<Term> = self.log.term_at(at - 1);
            match (here, before) {
                (Some(a), Some(b)) => {
                    if a != b {
                        return at;
                    }
                },
                _ => {
                    return at;
                },
            }
            at = at - 1;
        }
        at
    }

    /// Returns the greatest index up to `index` whose term is `term`, or `0`.
    fn last_of_term(&self, term: Term, index: Index) -> (r: Index)
        requires
            self@.log.wf(),
        ensures
            r == self@.log.last_of_term(term, index as int),
    {
        let base: Index = self.log.snapshot_index();
        let mut at: Index = index;
        while at > 0 && at >= base
            invariant
                self@.log.wf(),
                base == self@.log.base_index(),
                at <= index,
                self@.log.last_of_term(term, index as int) == self@.log.last_of_term(
                    term,
                    at as int,
                ),
            decreases at,
        {
            if let Some(t) = self.log.term_at(at) {
                if t == term {
                    return at;
                }
            }
            at = at - 1;
        }
        0
    }

    /// Returns the position in `entries`, from `skip` on, of the first entry that
    /// the log does not hold with the same term.
    fn find_new(&self, entries: &[LogEntry], skip: usize) -> (r: usize)
        requires
            self@.log.wf(),
            skip <= entries@.len(),
        ensures
            skip <= r <= entries@.len(),
            r - skip == crate::model::first_new(
                self@.log,
                crate::types::entry_models(entries@).skip(skip as int),
                0,
            ),
    {
        let ghost fresh = crate::types::entry_models(entries@).skip(skip as int);
        let mut at: usize = skip;
        while at < entries.len()
            invariant
                self@.log.wf(),
                skip <= at <= entries@.len(),
                fresh == crate::types::entry_models(entries@).skip(skip as int),
                crate::model::first_new(self@.log, fresh, 0) == crate::model::first_new(
                    self@.log,
                    fresh,
                    at - skip,
                ),
            decreases entries@.len() - at,
        {
            assert(fresh[at - skip] == entries@[at as int]@);
            match self.log.term_at(entries[at].index) {
                Some(t) => {
                    if t != entries[at].term {
                        return at;
                    }
                },
                None => {
                    return at;
                },
            }
            at = at + 1;
        }
        at
    }

    /// Puts the batch in place from its entry at position `from` on.
    fn merge(&mut self, entries: &[LogEntry], skip: usize, from: usize) -> (r: Result<(), Error>)
        requires
            old(self)@.log.wf(),
            skip <= from < entries@.len(),
            from - skip == crate::model::first_new(
                old(self)@.log,
                crate::types::entry_models(entries@).skip(skip as int),
                0,
            ),
            entries@[from as int].index >= 1,
            old(self)@.log.truncate(entries@[from as int].index as int).wf(),
            old(self)@.log.truncate(entries@[from as int].index as int).continued_by(
                crate::types::entry_models(entries@).skip(skip as int).skip(from - skip),
            ),
        ensures
            old(self).reached(
                *final(self),
                r,
                (NodeModel {
                    log: old(self)@.log.merge(
                        crate::types::entry_models(entries@).skip(skip as int),
                    ),
                    ..old(self)@
                }),
                true,
            ),
            final(self).config_index == old(self).config_index,
    {
        let ghost start = self@;
        let ghost fresh = crate::types::entry_models(entries@).skip(skip as int);
        let first: Index = entries[from].index;
        let last: Index = self.log.last_index();
        assert(fresh[from - skip] == entries@[from as int]@);
        if first <= last {
            self.log.truncate(first)?;
        } else {
            proof {
                crate::log::law_truncate_removes_the_tail(start.log, first as int, 0);
            }
        }
        let tail = vstd::slice::slice_subrange(entries, from, entries.len());
        proof {
            assert(crate::types::entry_models(tail@) =~= fresh.skip(from - skip));
        }
        self.log.append(tail)?;
        self.log.sync()
    }

    /// Brings the voters up to date after entries from `first` on were replaced,
    /// and tells of a change.
    fn refresh_members(&mut self, first: Index, actions: &mut Vec<Action>)
        requires
            old(self)@.log.wf(),
            old(self)@.log.base_index() < first <= old(self)@.log.last_index(),
            old(self).config_index < first ==> old(self).config_index == 0 || old(
                self,
            )@.log.holds(old(self).config_index as int) && crate::model::voters_in(
                old(self)@.log.at(old(self).config_index as int),
            ) is Some,
            old(self).config_index < first ==> old(self)@.members == voters_named(
                old(self)@,
                old(self).config_index as int,
            ),
            old(self).config_index < first ==> forall|i: int|
                old(self).config_index < i < first && i > old(self)@.log.base_index()
                    ==> crate::model::voters_in(#[trigger] old(self)@.log.at(i)) is None,
        ensures
            final(self)@ == old(self)@.reconfigured().0,
            action_models(final(actions)@) == action_models(old(actions)@)
                + old(self)@.reconfigured().1,
            final(self).reliable() == old(self).reliable(),
            final(self).synced() == old(self).synced(),
            final(self).config_index == final(self)@.log.config_index(),
    {
        let ghost start = self@;
        let last: Index = self.log.last_index();
        let base: Index = self.log.snapshot_index();
        let whole: bool = self.config_index >= first;
        let floor: Index = if whole {
            base
        } else {
            first - 1
        };
        let found: Index = self.find_config(floor, last);
        if found == 0 && !whole {
            proof {
                lemma_config_index_is(start.log, self.config_index as int);
                lemma_voters_by_config_index(start);
                assert(self@ =~= start.reconfigured().0);
                assert(action_models(actions@) + Seq::<ActionModel>::empty() =~= action_models(
                    actions@,
                ));
            }
            return;
        }
        let voters = self.voters_from(found);
        proof {
            lemma_config_index_is(start.log, found as int);
            lemma_voters_by_config_index(start);
        }
        self.config_index = found;
        if !same_ids(voters.as_slice(), self.members.as_slice()) {
            emit(actions, Action::MembershipChanged { members: copy_ids(voters.as_slice()) });
        } else {
            assert(action_models(actions@) + Seq::<ActionModel>::empty() =~= action_models(
                actions@,
            ));
        }
        self.members = voters;
        assert(self@ =~= start.reconfigured().0);
    }

    fn handle_append_entries(&mut self, m: AppendEntries, actions: &mut Vec<Action>) -> (r: Result<
        (),
        Error,
    >)
        requires
            old(self).sound(),
            old(self)@.term >= m.term,
        ensures
            old(self).reached(
                *final(self),
                r,
                old(self)@.on_append(m@).0,
                m.term >= old(self)@.term && old(self)@.takes_new(m@),
            ),
            r is Ok ==> final(self).sound(),
            r is Ok ==> action_models(final(actions)@) == action_models(old(actions)@)
                + old(self)@.on_append(m@).1,
    {
        if m.term < self.current_term {
            self.reply_to_append(m.leader, false, 0, 0, 0, actions);
            return Ok(());
        }
        self.recognise(m.leader);
        let ghost here = self@;
        let prev: Index = m.prev_log_index;
        let last: Index = self.log.last_index();
        let base: Index = self.log.snapshot_index();
        if prev > last {
            self.reply_to_append(m.leader, false, 0, last + 1, 0, actions);
            return Ok(());
        }
        if prev != 0 {
            if prev < base {
                let conflict: Index = self.commit_index + 1;
                self.reply_to_append(m.leader, false, 0, conflict, 0, actions);
                return Ok(());
            }
            let held: Term = match self.log.term_at(prev) {
                Some(t) => t,
                None => 0,
            };
            if held != m.prev_log_term {
                let start: Index = self.run_start(prev);
                self.reply_to_append(m.leader, false, 0, start, held, actions);
                return Ok(());
            }
        }
        self.take_batch(m, actions)
    }

    /// Follows a leader's commit index as far as the logs are known to agree.
    fn follow_commit(&mut self, leader_commit: Index, agreed: Index, actions: &mut Vec<Action>)
        requires
            old(self).sound(),
            agreed <= old(self)@.log.last_index(),
        ensures
            final(self).sound(),
            final(self)@ == old(self)@.followed(leader_commit, agreed as int).0,
            action_models(final(actions)@) == action_models(old(actions)@)
                + old(self)@.followed(leader_commit, agreed as int).1,
            final(self).reliable() == old(self).reliable(),
            final(self).synced() == old(self).synced(),
    {
        proof {
            crate::upkeep::lemma_followed(self@, leader_commit, agreed as int);
        }
        let target: Index = if leader_commit < agreed {
            leader_commit
        } else {
            agreed
        };
        if target > self.commit_index {
            self.commit_index = target;
        }
        proof {
            assert(self@.voters() == old(self)@.voters());
            assert(self@.others() == old(self)@.others());
        }
        self.drain_applies(actions);
    }

    /// Takes a batch that continues the log from an agreed point, unless it is
    /// malformed or would undo a commit.
    #[verifier::rlimit(30)]
    fn take_batch(&mut self, m: AppendEntries, actions: &mut Vec<Action>) -> (r: Result<(), Error>)
        requires
            old(self).sound(),
            old(self)@.role == Role::Follower,
            m.prev_log_index <= old(self)@.log.last_index(),
            old(self)@.log.agrees_at(m.prev_log_index as int, m.prev_log_term),
        ensures
            old(self).reached(
                *final(self),
                r,
                old(self)@.on_leader_append(m@).0,
                old(self)@.takes_new(m@),
            ),
            r is Ok ==> final(self).sound(),
            r is Ok ==> action_models(final(actions)@) == action_models(old(actions)@)
                + old(self)@.on_leader_append(m@).1,
    {
        let ghost here = self@;
        let ghost prior = action_models(actions@);
        let prev: Index = m.prev_log_index;
        let last: Index = self.log.last_index();
        let base: Index = self.log.snapshot_index();
        let entries = m.entries.as_slice();
        let count: usize = entries.len();
        let skip: usize = if prev >= base {
            0
        } else if base - prev >= count as u64 {
            count
        } else {
            (base - prev) as usize
        };
        let ghost fresh = here.log.uncovered(prev as int, m@.entries);
        assert(fresh == crate::types::entry_models(m.entries@).skip(skip as int));
        let first_new: usize = self.find_new(entries, skip);
        if !batch_follows(prev, entries) || (first_new < count && entries[first_new].index
            <= self.commit_index) {
            proof {
                if first_new < count {
                    assert(fresh[first_new - skip] == entries@[first_new as int]@);
                }
            }
            let conflict: Index = self.commit_index + 1;
            self.reply_to_append(m.leader, false, 0, conflict, 0, actions);
            return Ok(());
        }
        proof {
            if first_new < count {
                assert(fresh[first_new - skip] == entries@[first_new as int]@);
            }
            crate::upkeep::lemma_merge(here.log, prev as int, m@.entries);
            crate::upkeep::lemma_first_new(here.log, fresh, 0);
        }
        let ghost joined = NodeModel { log: here.log.merge(fresh), ..here };
        if first_new < count {
            let first: Index = entries[first_new].index;
            self.merge(entries, skip, first_new)?;
            proof {
                assert(self@ == joined);
                lemma_voters_before_merge(here, joined.log, first as int);
            }
            self.refresh_members(first, actions);
        } else {
            proof {
                assert(joined == here);
                assert(joined.reconfigured().0 =~= here);
                assert(prior + Seq::<ActionModel>::empty() =~= prior);
            }
        }
        let ghost merged = joined.reconfigured().0;
        let ghost news = joined.reconfigured().1;
        assert(self@ == merged);
        assert(action_models(actions@) == prior + news);
        proof {
            crate::upkeep::lemma_reconfigured(joined);
        }
        let agreed: Index = prev + count as u64;
        self.follow_commit(m.leader_commit, agreed, actions);
        self.reply_to_append(m.leader, true, agreed, 0, 0, actions);
        proof {
            assert(action_models(actions@) =~= prior + here.accepted(m@, fresh).1);
        }
        Ok(())
    }

    /// Records that a voter agrees with the log through `index`, and goes on from
    /// there.
    fn acknowledge(&mut self, slot: usize, index: Index, actions: &mut Vec<Action>)
        requires
            old(self).sound(),
            old(self)@.role == Role::Leader,
            slot < old(self)@.progress.len(),
        ensures
            final(self).sound(),
            final(self)@ == old(self)@.acknowledged(slot as int, index).0,
            action_models(final(actions)@) == action_models(old(actions)@)
                + old(self)@.acknowledged(slot as int, index).1,
            final(self).reliable() == old(self).reliable(),
            final(self).synced() == old(self).synced(),
    {
        let ghost start = self@;
        let ghost prior = action_models(actions@);
        let last: Index = self.log.last_index();
        if index > last {
            assert(prior + Seq::<ActionModel>::empty() =~= prior);
            return;
        }
        let p = self.progress[slot];
        assert(p.peer == start.others()[slot as int]);
        let matched: Index = if index > p.matched {
            index
        } else {
            p.matched
        };
        let next: Index = if p.next > matched {
            p.next
        } else {
            matched + 1
        };
        let known = Progress { peer: p.peer, next, matched, streaming: true };
        self.progress.set(slot, known);
        proof {
            assert(known == p.agreeing(index));
            crate::upkeep::lemma_progress_update(start, slot as int, known);
            assert(self@ =~= start.knowing(slot as int, known));
            crate::upkeep::lemma_committed(self@);
        }
        let ghost u = self@;
        self.advance_commit_as_leader(actions);
        if self.role == Role::Leader {
            if next <= last {
                self.send_to(slot, actions);
            }
            self.hand_over(slot, actions);
        }
        assert(action_models(actions@) =~= prior + start.acknowledged(slot as int, index).1);
    }

    fn handle_append_reply(&mut self, m: AppendEntriesReply, actions: &mut Vec<Action>)
        requires
            old(self).sound(),
        ensures
            final(self).sound(),
            final(self)@ == old(self)@.on_append_reply(m).0,
            action_models(final(actions)@) == action_models(old(actions)@)
                + old(self)@.on_append_reply(m).1,
            final(self).reliable() == old(self).reliable(),
            final(self).synced() == old(self).synced(),
    {
        let ghost start = self@;
        assert(action_models(actions@) + Seq::<ActionModel>::empty() =~= action_models(actions@));
        let slot: usize = self.slot(m.from);
        if self.role != Role::Leader || m.term != self.current_term || slot
            >= self.progress.len() {
            return;
        }
        if m.success {
            self.acknowledge(slot, m.match_index, actions);
            return;
        }
        let p = self.progress[slot];
        assert(p.peer == start.others()[slot as int]);
        let own: Index = if m.conflict_term > 0 {
            self.last_of_term(m.conflict_term, p.next - 1)
        } else {
            0
        };
        proof {
            crate::upkeep::lemma_last_of_term_bound(start.log, m.conflict_term, p.next - 1);
            crate::upkeep::lemma_backed_off(start, p, m);
        }
        let hint: Index = if own > 0 {
            own + 1
        } else {
            m.conflict_index
        };
        let low: Index = p.matched + 1;
        let high: Index = if p.next - 1 > low {
            p.next - 1
        } else {
            low
        };
        let last: Index = self.log.last_index();
        let next: Index = if hint > p.next && hint - 1 <= last {
            hint
        } else if hint < low {
            low
        } else if hint > high {
            high
        } else {
            hint
        };
        let backed = Progress { peer: p.peer, next, matched: p.matched, streaming: false };
        self.progress.set(slot, backed);
        proof {
            crate::upkeep::lemma_progress_update(start, slot as int, backed);
            assert(self@ =~= start.knowing(slot as int, backed));
        }
        self.send_to(slot, actions);
    }

    /// Answers a snapshot.
    fn reply_to_install(&self, to: NodeId, last_index: Index, actions: &mut Vec<Action>)
        ensures
            action_models(final(actions)@) == action_models(old(actions)@) + self@.install_reply(
                to,
                last_index,
            ),
    {
        emit(
            actions,
            Action::Send {
                to,
                message: Message::InstallSnapshotReply(
                    InstallSnapshotReply {
                        term: self.current_term,
                        from: self.config.id(),
                        last_index,
                    },
                ),
            },
        );
    }

    fn handle_install_snapshot(&mut self, m: InstallSnapshot, actions: &mut Vec<Action>) -> (r:
        Result<(), Error>)
        requires
            old(self).sound(),
            old(self)@.term >= m.term,
        ensures
            old(self).reached(
                *final(self),
                r,
                old(self)@.on_install(m@).0,
                m.term >= old(self)@.term && old(self)@.commit < m.snapshot.index < u64::MAX,
            ),
            r is Ok ==> final(self).sound(),
            r is Ok ==> action_models(final(actions)@) == action_models(old(actions)@)
                + old(self)@.on_install(m@).1,
    {
        let ghost start = self@;
        let ghost prior = action_models(actions@);
        proof {
            crate::upkeep::lemma_on_install(start, m@);
        }
        if m.term < self.current_term {
            self.reply_to_install(m.leader, 0, actions);
            return Ok(());
        }
        self.recognise(m.leader);
        let ghost here = self@;
        let index: Index = m.snapshot.index;
        if index <= self.commit_index || index == u64::MAX {
            let covered: Index = self.commit_index;
            self.reply_to_install(m.leader, covered, actions);
            return Ok(());
        }
        self.log.apply_snapshot(&m.snapshot)?;
        self.log.sync()?;
        self.commit_index = index;
        self.last_applied = index;
        let ghost installed = self@;
        assert(installed =~= NodeModel {
            log: here.log.compact(m@.snapshot),
            commit: index,
            applied: index,
            ..here
        });
        let last: Index = self.log.last_index();
        let base: Index = self.log.snapshot_index();
        let found: Index = self.find_config(base, last);
        let voters = self.voters_from(found);
        proof {
            lemma_config_index_is(installed.log, found as int);
            lemma_voters_by_config_index(installed);
        }
        self.config_index = found;
        let term: Term = m.snapshot.term;
        let data = m.snapshot.data;
        emit(actions, Action::RestoreSnapshot { index, term, data });
        if !same_ids(voters.as_slice(), self.members.as_slice()) {
            emit(actions, Action::MembershipChanged { members: copy_ids(voters.as_slice()) });
        }
        self.members = voters;
        assert(self@ =~= installed.reconfigured().0);
        self.reply_to_install(m.leader, index, actions);
        assert(action_models(actions@) =~= prior + start.on_install(m@).1);
        Ok(())
    }

    fn handle_message(&mut self, message: Message, actions: &mut Vec<Action>) -> (r: Result<
        (),
        Error,
    >)
        requires
            old(self).sound(),
            old(self)@.has_room_for(EventModel::Message(message@)),
        ensures
            old(self).reached(
                *final(self),
                r,
                old(self)@.on_message(message@).0,
                old(self)@.writes_on_message(message@),
            ),
            r is Ok ==> final(self).sound(),
            r is Ok ==> action_models(final(actions)@) == action_models(old(actions)@)
                + old(self)@.on_message(message@).1,
    {
        assert(action_models(actions@) + Seq::<ActionModel>::empty() =~= action_models(actions@));
        match message {
            Message::PreVote(m) => {
                self.handle_pre_vote(m, actions);
            },
            Message::PreVoteReply(_) => {},
            Message::RequestVote(m) => {
                if !m.force && self.leader_is_active() {
                    return Ok(());
                }
                self.become_follower(m.term)?;
                self.handle_request_vote(m, actions)?;
            },
            Message::RequestVoteReply(m) => {
                self.become_follower(m.term)?;
                self.handle_vote_reply(m, actions);
            },
            Message::AppendEntries(m) => {
                self.become_follower(m.term)?;
                self.handle_append_entries(m, actions)?;
            },
            Message::AppendEntriesReply(m) => {
                self.become_follower(m.term)?;
                self.handle_append_reply(m, actions);
            },
            Message::InstallSnapshot(m) => {
                self.become_follower(m.term)?;
                self.handle_install_snapshot(m, actions)?;
            },
            Message::InstallSnapshotReply(m) => {
                self.become_follower(m.term)?;
                let slot: usize = self.slot(m.from);
                if self.role == Role::Leader && m.term == self.current_term && slot
                    < self.progress.len() {
                    self.acknowledge(slot, m.last_index, actions);
                }
            },
            Message::TimeoutNow(m) => {
                self.become_follower(m.term)?;
                if m.term >= self.current_term && self.role != Role::Leader && contains_id(
                    self.members.as_slice(),
                    self.config.id(),
                ) {
                    self.start_election(true, actions)?;
                }
            },
        }
        Ok(())
    }

    // ---- the step function -----------------------------------------------

    /// Advances the state machine by one [`Event`] and returns the resulting
    /// [`Action`]s.
    ///
    /// This is the only way to drive a node. The call is deterministic: the same
    /// node state and the same event always produce the same actions, those of
    /// [`NodeModel::step`].
    ///
    /// A client's request that the node cannot take is refused with
    /// [`Error::NotLeader`] or [`Error::ConfigInProgress`] and changes nothing.
    /// [`Error::Storage`] means that the log failed on the durability path; the
    /// node must not be driven any further.
    pub fn step(&mut self, event: Event) -> (r: Result<Vec<Action>, Error>)
        requires
            old(self).valid(),
            old(self)@.has_room_for(event@),
        ensures
            old(self).stepped(*final(self), r, event@),
    {
        let mut actions: Vec<Action> = Vec::new();
        assert(action_models(actions@) =~= Seq::<ActionModel>::empty());
        match event {
            Event::Tick => {
                proof {
                    crate::laws::law_only_writes_change_the_log(self@, event@);
                    crate::laws::law_everything_committed_is_applied(self@, event@);
                    crate::laws::law_a_leader_has_committed_all_it_may(self@, event@);
                }
                self.tick(&mut actions)?;
                assert(action_models(actions@) =~= old(self)@.on_tick().1);
                Ok(actions)
            },
            Event::Message(message) => {
                proof {
                    crate::laws::law_only_writes_change_the_log(self@, event@);
                    crate::laws::law_everything_committed_is_applied(self@, event@);
                    crate::laws::law_a_leader_has_committed_all_it_may(self@, event@);
                }
                self.handle_message(message, &mut actions)?;
                assert(action_models(actions@) =~= old(self)@.on_message(message@).1);
                Ok(actions)
            },
            Event::Propose(command) => self.propose(command),
            Event::Snapshot { index, data } => {
                proof {
                    crate::laws::law_a_leader_has_committed_all_it_may(self@, event@);
                }
                self.compact(index, data)?;
                Ok(actions)
            },
            Event::AddServer(id) => self.add_server(id),
            Event::RemoveServer(id) => self.remove_server(id),
            Event::TransferLeadership(target) => self.transfer_leadership(target),
        }
    }
}

/// Says whether two lists of ids are the same.
fn same_ids(a: &[NodeId], b: &[NodeId]) -> (r: bool)
    ensures
        r == (a@ == b@),
{
    if a.len() != b.len() {
        return false;
    }
    let mut i: usize = 0;
    while i < a.len()
        invariant
            a@.len() == b@.len(),
            i <= a@.len(),
            forall|k: int| 0 <= k < i ==> a@[k] == b@[k],
        decreases a@.len() - i,
    {
        if a[i] != b[i] {
            assert(a@[i as int] != b@[i as int]);
            return false;
        }
        i = i + 1;
    }
    assert(a@ =~= b@);
    true
}

/// Says whether a batch runs on from `prev` and leaves room for another index.
fn batch_follows(prev: Index, entries: &[LogEntry]) -> (r: bool)
    ensures
        r == crate::model::follows(prev as int, crate::types::entry_models(entries@)),
{
    let ghost models = crate::types::entry_models(entries@);
    let count: u64 = entries.len() as u64;
    if count >= u64::MAX - prev {
        return false;
    }
    let mut i: usize = 0;
    while i < entries.len()
        invariant
            i <= entries@.len(),
            count == entries@.len(),
            count < u64::MAX - prev,
            models == crate::types::entry_models(entries@),
            forall|k: int| 0 <= k < i ==> (#[trigger] models[k]).index == prev + 1 + k,
        decreases entries@.len() - i,
    {
        let wanted: Index = prev + 1 + i as u64;
        assert(models[i as int] == entries@[i as int]@);
        if entries[i].index != wanted {
            assert(models[i as int].index != prev + 1 + i);
            return false;
        }
        i = i + 1;
    }
    true
}

/// What is known of the voters before entries from `first` on are replaced.
proof fn lemma_voters_before_merge(s: NodeModel, merged: LogModel, first: int)
    requires
        s.wf(),
        merged.wf(),
        merged.snapshot == s.log.snapshot,
        s.log.base_index() < first <= merged.last_index(),
        first <= s.log.last_index() + 1,
        forall|i: int|
            s.log.base_index() < i < first && i <= s.log.last_index() ==> merged.entry(i)
                == s.log.entry(i),
    ensures
        ({
            let at = s.log.config_index();
            let t = NodeModel { log: merged, ..s };
            at < first ==> {
                &&& at == 0 || merged.holds(at) && crate::model::voters_in(merged.at(at)) is Some
                &&& s.members == voters_named(t, at)
                &&& forall|i: int|
                    at < i < first && i > merged.base_index() ==> crate::model::voters_in(
                        #[trigger] merged.at(i),
                    ) is None
            }
        }),
{
    let at = s.log.config_index();
    lemma_voters_by_config_index(s);
    crate::upkeep::lemma_config_end(s.log.entries);
    if at < first {
        if at > 0 {
            assert(merged.entry(at) == s.log.entry(at));
        }
        assert forall|i: int| at < i < first && i > merged.base_index() implies
            crate::model::voters_in(#[trigger] merged.at(i)) is None by {
            assert(merged.entry(i) == s.log.entry(i));
            assert(s.log.at(i) == s.log.entries[i - s.log.base_index() - 1]);
        }
    }
}

/// A command at the end leaves the latest configuration entry where it is.
proof fn lemma_config_index_after_append(log: LogModel, entry: EntryModel)
    requires
        log.wf(),
        log.continued_by(seq![entry]),
        crate::model::voters_in(entry) is None,
    ensures
        log.append(seq![entry]).config_index() == log.config_index(),
{
    crate::upkeep::lemma_config_end(log.entries);
    let end = crate::model::config_end(log.entries);
    let all = log.append(seq![entry]).entries;
    assert forall|i: int| end <= i < all.len() implies crate::model::voters_in(
        #[trigger] all[i],
    ) is None by {
        if i < log.entries.len() {
            assert(all[i] == log.entries[i]);
        }
    }
    crate::upkeep::lemma_config_end_is(all, end);
}

/// A configuration at the end is the latest.
proof fn lemma_config_index_after_config(log: LogModel, entry: EntryModel, ids: Seq<NodeId>)
    requires
        log.wf(),
        log.continued_by(seq![entry]),
        entry == EntryModel::config(entry.term, entry.index, ids),
        crate::members::ascending(ids),
        ids.len() > 0,
    ensures
        log.append(seq![entry]).config_index() == log.last_index() + 1,
{
    crate::members::lemma_sorted_ids_of_ascending(ids);
    crate::types::lemma_members_round_trip(ids);
    let all = log.append(seq![entry]).entries;
    assert(all.last() == entry);
    crate::upkeep::lemma_config_end_is(all, all.len() as int);
}

/// Compacting drops the latest configuration entry with what it covers.
proof fn lemma_config_index_after_compaction(log: LogModel, snapshot: SnapshotModel)
    requires
        log.wf(),
        log.base_index() < snapshot.index <= log.last_index(),
        log.at(snapshot.index as int).term == snapshot.term,
    ensures
        log.compact(snapshot).config_index() == (if log.config_index() <= snapshot.index {
            0
        } else {
            log.config_index()
        }),
{
    let k = snapshot.index - log.base_index();
    let rest = log.compact(snapshot).entries;
    assert(rest == log.entries.skip(k));
    crate::upkeep::lemma_config_end(log.entries);
    let end = crate::model::config_end(log.entries);
    assert forall|i: int|
        (if end > k {
            end - k
        } else {
            0
        }) <= i < rest.len() implies crate::model::voters_in(#[trigger] rest[i]) is None by {
        assert(rest[i] == log.entries[i + k]);
    }
    if end > k {
        assert(rest[end - k - 1] == log.entries[end - 1]);
        crate::upkeep::lemma_config_end_is(rest, end - k);
    } else {
        crate::upkeep::lemma_config_end_is(rest, 0);
    }
}

/// The voters in effect after `index` are those named at the latest
/// configuration entry up to there.
proof fn lemma_voters_through(s: NodeModel, index: int, at: int)
    requires
        s.log.wf(),
        s.log.base_index() <= index <= s.log.last_index(),
        at == 0 || s.log.base_index() < at <= index && crate::model::voters_in(
            s.log.at(at),
        ) is Some,
        forall|i: int|
            s.log.base_index() < i <= index && i > at ==> crate::model::voters_in(
                #[trigger] s.log.at(i),
            ) is None,
    ensures
        s.voters_at(index) == voters_named(s, at),
{
    let base = s.log.base_index();
    let upto = s.log.between(base + 1, index);
    let end = if at > 0 {
        at - base
    } else {
        0
    };
    assert forall|i: int| end <= i < upto.len() implies crate::model::voters_in(
        #[trigger] upto[i],
    ) is None by {
        assert(upto[i] == s.log.at(base + 1 + i));
    }
    if at > 0 {
        assert(upto[end - 1] == s.log.at(at));
    }
    crate::upkeep::lemma_config_end_is(upto, end);
}

/// A stricter condition keeps no more elements.
proof fn lemma_filter_shrinks(ids: Seq<NodeId>, loose: spec_fn(NodeId) -> bool, strict: spec_fn(
    NodeId,
) -> bool)
    requires
        forall|m: NodeId| #[trigger] strict(m) ==> loose(m),
    ensures
        ids.filter(strict).len() <= ids.filter(loose).len(),
    decreases ids.len(),
{
    reveal(Seq::filter);
    if ids.len() > 0 {
        lemma_filter_shrinks(ids.drop_last(), loose, strict);
    }
}

/// Fewer voters hold more of the log.
proof fn lemma_holders_shrink(s: NodeModel, low: int, high: int)
    requires
        low <= high,
    ensures
        s.holders(low).len() >= s.holders(high).len(),
{
    lemma_filter_shrinks(s.members, s.holds_through(low), s.holds_through(high));
}

/// Of the members that satisfy a condition, one has the least matched index.
proof fn lemma_least_matched(s: NodeModel, ids: Seq<NodeId>, n: int) -> (k: int)
    requires
        ids.filter(s.holds_through(n)).len() > 0,
    ensures
        0 <= k < ids.len(),
        s.matched(ids[k]) >= n,
        forall|j: int|
            0 <= j < ids.len() && s.matched(#[trigger] ids[j]) >= n ==> s.matched(ids[j])
                >= s.matched(ids[k]),
    decreases ids.len(),
{
    reveal(Seq::filter);
    let holds = s.holds_through(n);
    let short = ids.drop_last();
    if short.filter(holds).len() > 0 {
        let k = lemma_least_matched(s, short, n);
        let z = ids.len() - 1;
        assert forall|j: int| 0 <= j < short.len() && s.matched(#[trigger] ids[j])
            >= n implies s.matched(ids[j]) >= s.matched(ids[k]) by {
            assert(short[j] == ids[j]);
        }
        if s.matched(ids[z]) >= n && s.matched(ids[z]) < s.matched(ids[k]) {
            z
        } else {
            k
        }
    } else {
        assert(holds(ids.last()));
        let z = ids.len() - 1;
        assert forall|j: int| 0 <= j < ids.len() && s.matched(#[trigger] ids[j])
            >= n implies s.matched(ids[j]) >= s.matched(ids[z]) by {
            if j < z {
                lemma_kept_by_filter(short, holds, j);
            }
        }
        z
    }
}

/// A filter that keeps nothing found nothing to keep.
proof fn lemma_kept_by_filter(ids: Seq<NodeId>, keep: spec_fn(NodeId) -> bool, j: int)
    requires
        0 <= j < ids.len(),
        keep(ids[j]),
    ensures
        ids.filter(keep).len() > 0,
    decreases ids.len(),
{
    reveal(Seq::filter);
    if j < ids.len() - 1 {
        lemma_kept_by_filter(ids.drop_last(), keep, j);
    }
}

/// If a majority holds the log through `n`, one does through some voter's own
/// matched index that is no less.
proof fn lemma_a_majority_ends_at_a_voter(s: NodeModel, n: int)
    requires
        s.holders(n).len() >= s.quorum(),
    ensures
        exists|k: int|
            0 <= k < s.members.len() && s.matched(#[trigger] s.members[k]) >= n && s.holders(
                s.matched(s.members[k]),
            ).len() >= s.quorum(),
{
    let k = lemma_least_matched(s, s.members, n);
    let v = s.matched(s.members[k]);
    lemma_filter_shrinks_within(s.members, s.holds_through(v), s.holds_through(n));
    assert(s.holders(v).len() >= s.quorum());
}

/// A condition that is stricter on the elements at hand keeps no more of them.
proof fn lemma_filter_shrinks_within(
    ids: Seq<NodeId>,
    loose: spec_fn(NodeId) -> bool,
    strict: spec_fn(NodeId) -> bool,
)
    requires
        forall|j: int| 0 <= j < ids.len() && strict(#[trigger] ids[j]) ==> loose(ids[j]),
    ensures
        ids.filter(strict).len() <= ids.filter(loose).len(),
    decreases ids.len(),
{
    reveal(Seq::filter);
    if ids.len() > 0 {
        let short = ids.drop_last();
        assert forall|j: int| 0 <= j < short.len() && strict(#[trigger] short[j]) implies loose(
            short[j],
        ) by {
            assert(short[j] == ids[j]);
        }
        lemma_filter_shrinks_within(short, loose, strict);
    }
}

/// Indices that no majority holds do not matter for the commit target.
proof fn lemma_commit_target_below(s: NodeModel, index: int, through: int)
    requires
        forall|n: int| n > through ==> (#[trigger] s.holders(n)).len() < s.quorum(),
        through <= index,
    ensures
        s.commit_target(index) == s.commit_target(through),
    decreases index - through,
{
    if index > through {
        assert(s.holders(index).len() < s.quorum());
        if index > s.commit {
            lemma_commit_target_below(s, index - 1, through);
        }
    }
}

/// The voters in effect when the latest configuration entry is at `index`, `0`
/// standing for none.
pub open spec fn voters_named(s: NodeModel, index: int) -> Seq<NodeId> {
    if index > 0 {
        crate::model::voters_in(s.log.at(index))->0
    } else {
        match s.log.snapshot {
            Some(snap) => if snap.config.len() > 0 {
                crate::members::sorted_ids(snap.config)
            } else {
                NodeModel::bootstrap(s.cfg)
            },
            None => NodeModel::bootstrap(s.cfg),
        }
    }
}

/// The voters in effect are those named at the latest configuration entry.
proof fn lemma_voters_by_config_index(s: NodeModel)
    requires
        s.log.wf(),
    ensures
        s.voters() == voters_named(s, s.log.config_index()),
        s.log.config_index() == 0 || s.log.holds(s.log.config_index()) && crate::model::voters_in(
            s.log.at(s.log.config_index()),
        ) is Some,
{
    crate::upkeep::lemma_between_all(s.log);
    crate::upkeep::lemma_config_end(s.log.entries);
}

/// The latest configuration entry is where a search finds it.
proof fn lemma_config_index_is(log: LogModel, index: int)
    requires
        log.wf(),
        index == 0 || log.holds(index) && crate::model::voters_in(log.at(index)) is Some,
        forall|i: int|
            log.holds(i) && i > index ==> crate::model::voters_in(#[trigger] log.at(i)) is None,
    ensures
        log.config_index() == index,
{
    let end = if index > 0 {
        index - log.base_index()
    } else {
        0
    };
    assert forall|i: int| end <= i < log.entries.len() implies crate::model::voters_in(
        #[trigger] log.entries[i],
    ) is None by {
        assert(log.at(i + 1 + log.base_index()) == log.entries[i]);
    }
    crate::upkeep::lemma_config_end_is(log.entries, end);
}

} // verus!
