//! A cluster of nodes, and what every run of it keeps.
//!
//! The model is adversarial: any node may take any step at any time, any message
//! ever sent may be delivered at any time, any number of times or never, and any
//! node may crash between steps and come back with what its log holds. Voters are
//! added and removed as the run goes on.
//!
//! Three things are asked of those who run the cluster ([`Cluster::allows`]). A
//! leader is asked for a change of the voters only once it has committed an entry
//! of its own term, or while it is [uncontested](Cluster::uncontested), as the
//! first leader of a new cluster is. A node that joins does not stand for
//! election, and does not compact its log, before its log names the voters: until
//! then all it knows of them is what it was started with.
//!
//! [`Cluster::after`] is what one step does. [`History`] is what has happened so
//! far, as far as the proofs need it, and [`Cluster::sound`] is the invariant
//! that ties the two together.

use crate::config::ConfigModel;
use crate::log::LogModel;
use crate::message::{AppendModel, InstallModel, MessageModel};
use crate::model::{ActionModel, EventModel, NodeModel, StepModel};
use crate::types::{EntryModel, Index, NodeId, Role, Term};
use vstd::prelude::*;

verus! {

/// A command handed to a node's state machine.
#[verifier::ext_equal]
pub struct Applied {
    pub node: NodeId,
    pub index: Index,
    pub term: Term,
    pub command: Seq<u8>,
}

/// A cluster at one moment.
#[verifier::ext_equal]
pub struct Cluster {
    /// The voters it starts out with, in ascending order.
    pub founders: Seq<NodeId>,
    /// The state of each node: of the founders, and of those that may join.
    pub nodes: Map<NodeId, NodeModel>,
    /// Every message ever sent, with its destination.
    pub net: Set<(NodeId, MessageModel)>,
    /// Every command ever applied.
    pub applied: Set<Applied>,
}

/// One step of a cluster.
pub enum Move {
    /// A node takes an event.
    Takes { node: NodeId, event: EventModel },
    /// A node crashes and comes back over its log.
    Restarts { node: NodeId, cfg: ConfigModel },
}

impl Cluster {
    /// `cfg` is a configuration of node `node`. Founders know each other; one that
    /// joins may be told anything.
    pub open spec fn fits(self, node: NodeId, cfg: ConfigModel) -> bool {
        &&& cfg.id == node
        &&& cfg.usable()
        &&& self.founders.contains(node) ==> NodeModel::bootstrap(cfg) == self.founders
    }

    /// The node knows the voters in effect after the entry at `index`: it is a
    /// founder, or its log names them.
    pub open spec fn informed(self, node: NodeId, index: int) -> bool {
        self.founders.contains(node) || self.nodes[node].log.voters_at(index) is Some
    }

    /// A cluster before anything has happened.
    pub open spec fn is_new(self) -> bool {
        &&& self.founders.len() > 0
        &&& crate::members::ascending(self.founders)
        &&& forall|n: NodeId| #[trigger]
            self.founders.contains(n) ==> self.nodes.contains_key(n)
        &&& forall|n: NodeId| #[trigger]
            self.nodes.contains_key(n) ==> self.fits(n, self.nodes[n].cfg) && self.nodes[n]
                == NodeModel::initial(self.nodes[n].cfg, LogModel::empty())
        &&& self.net == Set::<(NodeId, MessageModel)>::empty()
        &&& self.applied == Set::<Applied>::empty()
    }

    /// The step can be taken: a message delivered was sent to that node, counters
    /// have room, and what is asked of those who run the cluster is heeded.
    pub open spec fn allows(self, m: Move) -> bool {
        match m {
            Move::Takes { node, event } => {
                &&& self.nodes.contains_key(node)
                &&& self.nodes[node].has_room_for(event)
                &&& event matches EventModel::Message(message) ==> self.net.contains(
                    (node, message),
                )
                &&& self.heeds(node, event)
            },
            Move::Restarts { node, cfg } => self.nodes.contains_key(node) && self.fits(node, cfg),
        }
    }

    /// What is asked of those who run the cluster is heeded when `node` takes
    /// `event`.
    pub open spec fn heeds(self, node: NodeId, event: EventModel) -> bool {
        let s = self.nodes[node];
        &&& s.stands_on(event) ==> self.informed(node, s.log.last_index())
        &&& event matches EventModel::Snapshot { index, .. } ==> s.log.base_index() < index
            <= s.applied ==> self.informed(node, index as int)
        &&& s.starts_change(event) ==> s.log.term_at(s.commit as int) == Some(s.term)
            || self.uncontested(node)
    }

    /// No other node leads or is in a later term, and no node's log and no message
    /// holds a configuration entry that the node's log lacks.
    pub open spec fn uncontested(self, node: NodeId) -> bool {
        let s = self.nodes[node];
        &&& forall|m: NodeId| #[trigger]
            self.nodes.contains_key(m) && m != node ==> self.nodes[m].role != Role::Leader
                && self.nodes[m].term <= s.term
        &&& forall|m: NodeId, i: int|
            #![trigger self.nodes[m].log.at(i)]
            self.nodes.contains_key(m) && self.nodes[m].log.holds(i) && crate::model::voters_in(
                self.nodes[m].log.at(i),
            ) is Some ==> s.log.entry(i) == Some(self.nodes[m].log.at(i))
        &&& forall|to: NodeId, x: AppendModel, i: int|
            #![trigger self.net.contains((to, MessageModel::AppendEntries(x))), x.entries[i]]
            self.net.contains((to, MessageModel::AppendEntries(x))) && 0 <= i < x.entries.len()
                && crate::model::voters_in(x.entries[i]) is Some ==> s.log.entry(
                x.entries[i].index as int,
            ) == Some(x.entries[i])
    }

    /// The cluster once `node` has moved to `next` and its actions are carried
    /// out.
    pub open spec fn moved(self, node: NodeId, next: NodeModel, out: Seq<ActionModel>) -> Cluster {
        Cluster {
            founders: self.founders,
            nodes: self.nodes.insert(node, next),
            net: self.net.union(sends(out)),
            applied: self.applied.union(applications(node, out)),
        }
    }

    /// What a step leads to.
    #[verifier::opaque]
    pub open spec fn after(self, m: Move) -> Cluster {
        match m {
            Move::Takes { node, event } => match self.nodes[node].step(event) {
                StepModel::Refused(_) => self,
                StepModel::Moved(next, out) => self.moved(node, next, out),
            },
            Move::Restarts { node, cfg } => Cluster {
                nodes: self.nodes.insert(node, NodeModel::initial(cfg, self.nodes[node].log)),
                ..self
            },
        }
    }

    /// The cluster after a run of steps.
    pub open spec fn run(self, moves: Seq<Move>) -> Cluster
        decreases moves.len(),
    {
        if moves.len() == 0 {
            self
        } else {
            self.run(moves.drop_last()).after(moves.last())
        }
    }

    /// Every step of the run can be taken when its turn comes.
    pub open spec fn allows_run(self, moves: Seq<Move>) -> bool
        decreases moves.len(),
    {
        moves.len() == 0 || (self.allows_run(moves.drop_last()) && self.run(
            moves.drop_last(),
        ).allows(moves.last()))
    }
}

/// The messages that a list of actions sends, with their destinations.
pub open spec fn sends(out: Seq<ActionModel>) -> Set<(NodeId, MessageModel)> {
    Set::new(
        |x: (NodeId, MessageModel)| out.contains(ActionModel::Send { to: x.0, message: x.1 }),
    )
}

/// The commands that a list of actions has `node` apply.
pub open spec fn applications(node: NodeId, out: Seq<ActionModel>) -> Set<Applied> {
    Set::new(
        |x: Applied|
            x.node == node && out.contains(
                ActionModel::Apply { index: x.index, term: x.term, command: x.command },
            ),
    )
}

// ---- history -------------------------------------------------------------

/// The leadership of a term.
#[verifier::ext_equal]
pub struct Leadership {
    /// Who leads.
    pub node: NodeId,
    /// The voters whose votes decided it.
    pub electors: Set<NodeId>,
    /// The leader's whole log when it was elected.
    pub start: Seq<EntryModel>,
    /// The leader's whole log so far.
    pub log: Seq<EntryModel>,
    /// It changed the voters while it was uncontested.
    pub early: bool,
}

/// A vote.
#[verifier::ext_equal]
pub struct Ballot {
    /// Whom it is for.
    pub candidate: NodeId,
    /// The voter's whole log when it was cast.
    pub log: Seq<EntryModel>,
}

/// What has happened in a cluster so far.
#[verifier::ext_equal]
pub struct History {
    /// The whole log of each node, with what is compacted.
    pub full: Map<NodeId, Seq<EntryModel>>,
    /// The leadership of each term that had a leader.
    pub leaders: Map<Term, Leadership>,
    /// The vote of each node in each term that it voted in.
    pub votes: Map<(Term, NodeId), Ballot>,
    /// The whole log of each candidate when it stood in a term.
    pub camps: Map<(Term, NodeId), Seq<EntryModel>>,
    /// How much of the log of a term's leader a node has acknowledged.
    pub acks: Map<(Term, NodeId), nat>,
}

/// More than half of the voters satisfy `pred`.
pub open spec fn majority(voters: Seq<NodeId>, pred: spec_fn(NodeId) -> bool) -> bool {
    voters.filter(pred).len() >= voters.len() / 2 + 1
}

/// The term of the last entry, `0` without one.
pub open spec fn end_term(log: Seq<EntryModel>) -> Term {
    if log.len() == 0 {
        0
    } else {
        log.last().term
    }
}

/// `a` is at least as up to date as `b`.
pub open spec fn as_good(a: Seq<EntryModel>, b: Seq<EntryModel>) -> bool {
    end_term(a) > end_term(b) || (end_term(a) == end_term(b) && a.len() >= b.len())
}

/// `log` agrees with `other` on the first `k` entries, and both have that many.
pub open spec fn agree(log: Seq<EntryModel>, other: Seq<EntryModel>, k: int) -> bool {
    0 <= k <= log.len() && k <= other.len() && log.take(k) == other.take(k)
}

/// The voters in effect after `log`: those of its latest configuration entry, or
/// the founders.
pub open spec fn conf(founders: Seq<NodeId>, log: Seq<EntryModel>) -> Seq<NodeId> {
    let end = crate::model::config_end(log);
    if end > 0 {
        crate::model::voters_in(log[end - 1])->0
    } else {
        founders
    }
}

/// Two sets of voters differ in `id` at most.
pub open spec fn differ_in(a: Seq<NodeId>, b: Seq<NodeId>, id: NodeId) -> bool {
    forall|x: NodeId| x != id ==> (#[trigger] a.contains(x) <==> b.contains(x))
}

/// Two sets of voters differ in one voter at most.
pub open spec fn close(a: Seq<NodeId>, b: Seq<NodeId>) -> bool {
    &&& crate::members::ascending(a)
    &&& crate::members::ascending(b)
    &&& exists|id: NodeId| differ_in(a, b, id)
}

/// Contiguous indices, terms from one on, and every configuration entry changes
/// the voters by one at most.
pub open spec fn tidy(founders: Seq<NodeId>, log: Seq<EntryModel>) -> bool {
    forall|i: int|
        0 <= i < log.len() ==> {
            let e = #[trigger] log[i];
            e.index == i + 1 && e.term >= 1 && (crate::model::voters_in(e) matches Some(ids)
                ==> close(conf(founders, log.take(i)), ids))
        }
}

/// Every term in `log` is below `bound`.
pub open spec fn below(log: Seq<EntryModel>, bound: int) -> bool {
    forall|i: int| 0 <= i < log.len() ==> (#[trigger] log[i]).term < bound
}

/// `log` holds what remains of `full` after compaction.
pub open spec fn mirrors(log: LogModel, full: Seq<EntryModel>) -> bool {
    &&& full.len() == log.last_index()
    &&& forall|i: int| log.holds(i) ==> #[trigger] log.at(i) == full[i - 1]
    &&& log.base_index() > 0 ==> log.base_term() == full[log.base_index() - 1].term
}

/// A snapshot on record names the voters in effect after what it covers.
pub open spec fn snapshot_names(
    founders: Seq<NodeId>,
    log: LogModel,
    full: Seq<EntryModel>,
) -> bool {
    log.snapshot matches Some(s) ==> s.config.len() > 0 && crate::members::sorted_ids(s.config)
        == conf(founders, full.take(s.index as int))
}

impl History {
    /// How much of the log of the leader of `term` the node has acknowledged.
    pub open spec fn acked(self, term: Term, node: NodeId) -> nat {
        if self.acks.contains_key((term, node)) {
            self.acks[(term, node)]
        } else {
            0
        }
    }

    /// Every prefix of `log` is a prefix of the log of the leader that created
    /// its last entry.
    pub open spec fn rooted(self, log: Seq<EntryModel>) -> bool {
        forall|k: int|
            0 <= k < log.len() ==> {
                let u = (#[trigger] log[k]).term;
                self.leaders.contains_key(u) && agree(log, self.leaders[u].log, k + 1)
            }
    }

    /// The leader of `u` started out with the first `k` entries of the leader of
    /// `t`.
    pub open spec fn carries(self, u: Term, t: Term, k: int) -> bool {
        agree(self.leaders[u].start, self.leaders[t].log, k)
    }

    /// A leader between `t` and `bound` lacked the first `k` entries of the leader
    /// of `t`.
    pub open spec fn dropped(self, t: Term, k: int, bound: int) -> bool {
        exists|u: Term|
            t < u < bound && #[trigger] self.leaders.contains_key(u) && !self.carries(u, t, k)
    }

    /// `log` still has the first `k` entries of the leader of `t`, unless a leader
    /// in between lacked them.
    pub open spec fn retains(self, log: Seq<EntryModel>, t: Term, k: int, bound: int) -> bool {
        agree(log, self.leaders[t].log, k) || self.dropped(t, k, bound)
    }

    /// Whether a node has acknowledged the first `k` entries of the leader of `t`.
    pub open spec fn backs(self, t: Term, k: int) -> spec_fn(NodeId) -> bool {
        |n: NodeId| self.acked(t, n) >= k
    }

    /// A majority of the voters that the leader of `t` had with `j` entries holds
    /// its first `k` entries, the last of which that leader created.
    pub open spec fn held(self, founders: Seq<NodeId>, t: Term, k: int, j: int) -> bool {
        &&& self.leaders.contains_key(t)
        &&& 1 <= k <= j <= self.leaders[t].log.len()
        &&& self.leaders[t].log[k - 1].term == t
        &&& majority(conf(founders, self.leaders[t].log.take(j)), self.backs(t, k))
    }

    /// The first `k` entries of the leader of `t` were chosen.
    pub open spec fn chosen(self, founders: Seq<NodeId>, t: Term, k: int) -> bool {
        exists|j: int| self.held(founders, t, k, j)
    }

    /// When the leader of `t` created the configuration entry at position `p`,
    /// what it had chosen in its own term reached past the one before.
    pub open spec fn grounded(self, founders: Seq<NodeId>, t: Term, p: int) -> bool {
        exists|k: int, j: int|
            #![trigger self.held(founders, t, k, j)]
            self.held(founders, t, k, j) && j <= p && crate::model::config_end(
                self.leaders[t].log.take(p),
            ) <= k
    }

    /// The leader of `u` changed the voters while it was uncontested.
    pub open spec fn early(self, u: Term) -> bool {
        self.leaders.contains_key(u) && self.leaders[u].early
    }

    /// The leader of `u` started out with the entry, if that names voters and is
    /// of an earlier term.
    pub open spec fn covers(self, u: Term, e: EntryModel) -> bool {
        let start = self.leaders[u].start;
        e.term < u && crate::model::voters_in(e) is Some ==> 1 <= e.index <= start.len()
            && start[e.index - 1] == e
    }

    /// The leader of `u` started out with every configuration entry of an earlier
    /// term in `log`.
    pub open spec fn covered(self, u: Term, log: Seq<EntryModel>) -> bool {
        forall|i: int| 0 <= i < log.len() ==> self.covers(u, #[trigger] log[i])
    }

    /// The leader of `u` started out without any entry of `term`.
    pub open spec fn unseen(self, u: Term, term: Term) -> bool {
        forall|i: int|
            0 <= i < self.leaders[u].start.len() ==> (
            #[trigger] self.leaders[u].start[i]).term != term
    }

    /// The configuration entry at position `p` of the leader of `t` builds on what
    /// was chosen: in that leader's own term, or before it for the first entry of a
    /// leader that was uncontested.
    pub open spec fn founded(self, founders: Seq<NodeId>, t: Term, p: int) -> bool {
        self.grounded(founders, t, p) || (self.early(t) && crate::model::config_end(
            self.leaders[t].log.take(p),
        ) <= self.leaders[t].start.len())
    }

    /// The first `count` entries of `log` were chosen, by the term `bound` at the
    /// latest.
    pub open spec fn settled(
        self,
        founders: Seq<NodeId>,
        log: Seq<EntryModel>,
        count: int,
        bound: Term,
    ) -> bool {
        count == 0 || exists|t: Term, k: int|
            #![trigger self.chosen(founders, t, k)]
            self.chosen(founders, t, k) && t <= bound && count <= k && agree(
                log,
                self.leaders[t].log,
                count,
            )
    }

    /// A message says what is true.
    pub open spec fn vouches(self, founders: Seq<NodeId>, to: NodeId, m: MessageModel) -> bool {
        match m {
            MessageModel::RequestVote(x) => self.camps.contains_key((x.term, x.candidate)) && {
                let log = self.camps[(x.term, x.candidate)];
                x.last_log_index == log.len() && x.last_log_term == end_term(log)
            },
            MessageModel::RequestVoteReply(x) => x.vote_granted ==> self.votes.contains_key(
                (x.term, x.from),
            ) && self.votes[(x.term, x.from)].candidate == to,
            MessageModel::AppendEntries(x) => self.vouches_append(founders, x),
            MessageModel::AppendEntriesReply(x) => x.success ==> x.match_index <= self.acked(
                x.term,
                x.from,
            ),
            MessageModel::InstallSnapshot(x) => self.vouches_install(founders, x),
            MessageModel::InstallSnapshotReply(x) => x.last_index <= self.acked(x.term, x.from),
            _ => true,
        }
    }

    /// An append carries a piece of its leader's log.
    pub open spec fn vouches_append(self, founders: Seq<NodeId>, x: AppendModel) -> bool {
        &&& self.leaders.contains_key(x.term)
        &&& {
            let log = self.leaders[x.term].log;
            let p = x.prev_log_index as int;
            &&& p + x.entries.len() <= log.len()
            &&& x.entries == log.subrange(p, p + x.entries.len())
            &&& x.prev_log_term == (if p == 0 {
                0
            } else {
                log[p - 1].term
            })
            &&& x.leader_commit <= log.len()
            &&& self.settled(founders, log, x.leader_commit as int, x.term)
        }
        &&& forall|u: Term| #[trigger] self.early(u) ==> self.covered(u, x.entries)
    }

    /// A snapshot covers a chosen prefix of its leader's log.
    pub open spec fn vouches_install(self, founders: Seq<NodeId>, x: InstallModel) -> bool {
        &&& self.leaders.contains_key(x.term)
        &&& {
            let log = self.leaders[x.term].log;
            let i = x.snapshot.index as int;
            &&& 1 <= i <= log.len()
            &&& x.snapshot.term == log[i - 1].term
            &&& self.settled(founders, log, i, x.term)
            &&& x.snapshot.config.len() > 0
            &&& crate::members::sorted_ids(x.snapshot.config) == conf(founders, log.take(i))
        }
    }

    /// An applied command was chosen.
    pub open spec fn justifies(self, founders: Seq<NodeId>, a: Applied) -> bool {
        exists|t: Term, k: int|
            #![trigger self.chosen(founders, t, k)]
            self.chosen(founders, t, k) && 1 <= a.index <= k && {
                let e = self.leaders[t].log[a.index - 1];
                e.term == a.term && e.command == a.command
            }
    }

    /// What holds of the leadership of `t`.
    pub open spec fn leads_well(self, founders: Seq<NodeId>, t: Term) -> bool {
        let l = self.leaders[t];
        &&& t >= 1
        &&& self.camps.contains_key((t, l.node)) && self.camps[(t, l.node)] == l.start
        &&& l.start.len() <= l.log.len() && l.log.take(l.start.len() as int) == l.start
        &&& tidy(founders, l.log)
        &&& below(l.start, t as int)
        &&& forall|i: int| l.start.len() <= i < l.log.len() ==> (#[trigger] l.log[i]).term == t
        &&& self.rooted(l.log)
        &&& majority(conf(founders, l.start), |v: NodeId| l.electors.contains(v))
        &&& forall|v: NodeId| #[trigger]
            l.electors.contains(v) ==> {
                &&& self.votes.contains_key((t, v))
                &&& self.votes[(t, v)].candidate == l.node
                &&& self.remembers(t, v, t as int)
            }
        &&& forall|p: int|
            l.start.len() <= p < l.log.len() && crate::model::voters_in(#[trigger] l.log[p]) is Some
                ==> self.founded(founders, t, p)
        &&& l.early ==> self.settled(
            founders,
            l.start,
            crate::model::config_end(l.start),
            (t - 1) as Term,
        )
        &&& self.acked(t, l.node) == l.log.len()
        &&& forall|n: NodeId| #[trigger] self.acked(t, n) <= l.log.len()
    }

    /// When it voted in `t`, `v` still had whatever it had acknowledged before,
    /// unless a leader before `bound` lacked it.
    pub open spec fn remembers(self, t: Term, v: NodeId, bound: int) -> bool {
        forall|s: Term, k: int|
            #![trigger self.retains(self.votes[(t, v)].log, s, k, bound)]
            s < t && 1 <= k <= self.acked(s, v) ==> self.retains(
                self.votes[(t, v)].log,
                s,
                k,
                bound,
            )
    }

    /// What holds of the vote of `v` in `t`.
    pub open spec fn voted_well(self, founders: Seq<NodeId>, t: Term, v: NodeId) -> bool {
        let b = self.votes[(t, v)];
        &&& self.camps.contains_key((t, b.candidate))
        &&& as_good(self.camps[(t, b.candidate)], b.log)
        &&& self.rooted(b.log)
        &&& self.remembers(t, v, t + 1)
        &&& !self.leaders.contains_key(t) ==> self.remembers(t, v, t as int)
    }

    /// What holds of the candidacy of `n` in `t`.
    pub open spec fn stood_well(self, founders: Seq<NodeId>, t: Term, n: NodeId) -> bool {
        let log = self.camps[(t, n)];
        &&& t >= 1
        &&& tidy(founders, log)
        &&& below(log, t as int)
        &&& self.rooted(log)
        &&& forall|u: Term| #[trigger] self.early(u) && u < t ==> self.covered(u, log)
    }

    /// What holds of a node's state `s` and its whole log.
    pub open spec fn describes(self, founders: Seq<NodeId>, n: NodeId, s: NodeModel) -> bool {
        let log = self.full[n];
        &&& s.wf()
        &&& s.cfg.id == n
        &&& founders.contains(n) ==> NodeModel::bootstrap(s.cfg) == founders
        &&& snapshot_names(founders, s.log, log)
        &&& mirrors(s.log, log)
        &&& tidy(founders, log)
        &&& below(log, s.term + 1)
        &&& self.rooted(log)
        &&& self.settled(founders, log, s.commit as int, s.term)
        &&& self.votes_match(n, s)
        &&& self.acks_match(n, s.term, log)
        &&& forall|u: Term| #[trigger] self.early(u) ==> self.covered(u, log)
        &&& s.role != Role::Follower ==> s.members == conf(founders, log)
        &&& s.role == Role::Candidate ==> self.stands(n, s)
        &&& s.role == Role::Leader ==> self.rules(n, s)
    }

    /// The node's vote is the one on record, and none is on record for a later
    /// term; neither is a candidacy or a leadership.
    pub open spec fn votes_match(self, n: NodeId, s: NodeModel) -> bool {
        &&& s.voted_for matches Some(c) ==> self.votes.contains_key((s.term, n))
            && self.votes[(s.term, n)].candidate == c
        &&& forall|t: Term| #[trigger]
            self.votes.contains_key((t, n)) ==> t <= s.term && (t == s.term ==> s.voted_for == Some(
                self.votes[(t, n)].candidate,
            ))
        &&& forall|t: Term| #[trigger] self.camps.contains_key((t, n)) ==> t <= s.term
        &&& forall|t: Term| #[trigger]
            self.leaders.contains_key(t) && self.leaders[t].node == n ==> t <= s.term
    }

    /// What a node in `term` has acknowledged is in its log, unless a leader in
    /// between lacked it.
    pub open spec fn acks_match(self, n: NodeId, term: Term, log: Seq<EntryModel>) -> bool {
        &&& forall|t: Term| #[trigger]
            self.acked(t, n) > 0 ==> t <= term && self.leaders.contains_key(t)
        &&& forall|t: Term, k: int|
            #![trigger self.retains(log, t, k, term + 1)]
            1 <= k <= self.acked(t, n) ==> self.retains(log, t, k, term + 1)
    }

    /// What holds of a candidate.
    pub open spec fn stands(self, n: NodeId, s: NodeModel) -> bool {
        &&& self.camps.contains_key((s.term, n)) && self.camps[(s.term, n)] == self.full[n]
        &&& forall|i: int|
            0 <= i < s.votes.len() ==> {
                let v = #[trigger] s.votes[i];
                self.votes.contains_key((s.term, v)) && self.votes[(s.term, v)].candidate == n
            }
        &&& self.leaders.contains_key(s.term) ==> self.leaders[s.term].node != n
    }

    /// What holds of a leader.
    pub open spec fn rules(self, n: NodeId, s: NodeModel) -> bool {
        &&& self.leaders.contains_key(s.term)
        &&& forall|u: Term| #[trigger] self.early(u) && s.term < u ==> self.unseen(u, s.term)
        &&& self.leaders[s.term].node == n
        &&& self.leaders[s.term].log == self.full[n]
        &&& forall|i: int|
            0 <= i < s.progress.len() ==> (#[trigger] s.progress[i]).matched <= self.acked(
                s.term,
                s.progress[i].peer,
            )
    }

    /// `self` goes on from `earlier`: nothing on record is taken back.
    pub open spec fn continues(self, earlier: History) -> bool {
        &&& forall|t: Term| #[trigger]
            earlier.leaders.contains_key(t) ==> {
                &&& self.leaders.contains_key(t)
                &&& self.leaders[t].node == earlier.leaders[t].node
                &&& self.leaders[t].electors == earlier.leaders[t].electors
                &&& self.leaders[t].start == earlier.leaders[t].start
                &&& earlier.leaders[t].early ==> self.leaders[t].early
                &&& agree(self.leaders[t].log, earlier.leaders[t].log, earlier.leaders[
                    t
                ].log.len() as int)
            }
        &&& forall|x: (Term, NodeId)| #[trigger]
            earlier.votes.contains_key(x) ==> self.votes.contains_key(x) && self.votes[x]
                == earlier.votes[x]
        &&& forall|x: (Term, NodeId)| #[trigger]
            earlier.camps.contains_key(x) ==> self.camps.contains_key(x) && self.camps[x]
                == earlier.camps[x]
        &&& forall|t: Term, n: NodeId|
            self.acked(t, n) >= #[trigger] earlier.acked(t, n)
    }
}

impl Cluster {
    /// The cluster is as its history says, and the history is coherent.
    pub open spec fn sound(self, h: History) -> bool {
        &&& self.founders.len() > 0
        &&& crate::members::ascending(self.founders)
        &&& forall|n: NodeId| #[trigger]
            self.founders.contains(n) ==> self.nodes.contains_key(n)
        &&& forall|n: NodeId| #[trigger]
            self.nodes.contains_key(n) ==> h.describes(self.founders, n, self.nodes[n])
        &&& forall|x: (NodeId, MessageModel)| #[trigger]
            self.net.contains(x) ==> h.vouches(self.founders, x.0, x.1)
        &&& forall|a: Applied| #[trigger]
            self.applied.contains(a) ==> h.justifies(self.founders, a)
        &&& forall|x: (Term, NodeId)| #[trigger]
            h.camps.contains_key(x) ==> self.nodes.contains_key(x.1)
        &&& h.coherent(self.founders)
    }
}

impl History {
    /// The records fit together.
    pub open spec fn coherent(self, founders: Seq<NodeId>) -> bool {
        &&& forall|t: Term|
            self.leaders.contains_key(t) ==> #[trigger] self.leads_well(founders, t)
        &&& forall|t: Term, v: NodeId|
            self.votes.contains_key((t, v)) ==> #[trigger] self.voted_well(founders, t, v)
        &&& forall|t: Term, n: NodeId|
            self.camps.contains_key((t, n)) ==> #[trigger] self.stood_well(founders, t, n)
        &&& forall|t: Term, n: NodeId| #[trigger]
            self.acked(t, n) > 0 ==> self.leaders.contains_key(t)
    }
}

} // verus!
