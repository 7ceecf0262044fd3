//! What each event is for, and what comes of it.
//!
//! Every law here takes a node and an event and says what can be seen afterwards:
//! the roles, terms, votes, entries and voters before and after, and the actions
//! handed out. Nothing is said of how a node gets there.

use crate::config::ConfigModel;
use crate::error::ErrorModel;
use crate::log::LogModel;
use crate::message::{
    AppendEntriesReply, AppendModel, InstallModel, InstallSnapshotReply, MessageModel, PreVote,
    PreVoteReply, RequestVote, RequestVoteReply, TimeoutNow,
};
use crate::model::{ActionModel, EventModel, NodeModel, Progress, StepModel};
use crate::types::{EntryKind, EntryModel, HardState, Index, NodeId, Role, Term};
use vstd::prelude::*;

verus! {

// ---- elections -----------------------------------------------------------

/// `out` is messages alone, one for each of the voters `members` but `id`.
pub open spec fn one_each(members: Seq<NodeId>, id: NodeId, out: Seq<ActionModel>) -> bool {
    &&& forall|i: int|
        0 <= i < out.len() ==> (#[trigger] out[i] matches ActionModel::Send { to, .. }
            && members.contains(to) && to != id)
    &&& forall|i: int, j: int|
        0 <= i < j < out.len() ==> (#[trigger] out[i])->to != (#[trigger] out[j])->to
    &&& forall|m: NodeId|
        members.contains(m) && m != id ==> exists|i: int|
            0 <= i < out.len() && (#[trigger] out[i])->to == m
}

/// The election timer starts afresh, with a timeout that the generator draws from the
/// range configured.
pub open spec fn drew(s: NodeModel, t: NodeModel) -> bool {
    let (min, max) = (s.cfg.election_timeout_min, s.cfg.election_timeout_max);
    &&& t.election_elapsed == 0
    &&& min <= t.election_timeout <= max
    &&& t.election_timeout == crate::rng::drawn(s.rng, min, max)
    &&& t.rng == crate::rng::state_after_draw(s.rng, min, max)
}

/// From `s`, a node that stands for election is in `t` and hands out `out`: it is in
/// the next term, with its vote for itself on record, and either leads, being the only
/// voter, or asks each of the others for its vote.
pub open spec fn stood(s: NodeModel, t: NodeModel, out: Seq<ActionModel>, force: bool) -> bool {
    &&& t.term == s.term + 1
    &&& t.voted_for == Some(s.cfg.id)
    &&& t.log.hard == (HardState { term: (s.term + 1) as Term, voted_for: Some(s.cfg.id) })
    &&& t.log.entries == s.log.entries
    &&& t.log.snapshot == s.log.snapshot
    &&& t.members == s.members
    &&& drew(s, t)
    &&& if s.members == seq![s.cfg.id] {
        &&& t.role == Role::Leader
        &&& t.leader == Some(s.cfg.id)
        &&& forall|i: int| 0 <= i < out.len() ==> !(#[trigger] out[i] is Send)
    } else {
        &&& t.role == Role::Candidate
        &&& t.leader is None
        &&& t.votes == seq![s.cfg.id]
        &&& t.commit == s.commit
        &&& t.applied == s.applied
        &&& one_each(s.members, s.cfg.id, out)
        &&& forall|i: int|
            0 <= i < out.len() ==> (#[trigger] out[i])->message == MessageModel::RequestVote(
                RequestVote {
                    term: (s.term + 1) as Term,
                    candidate: s.cfg.id,
                    last_log_index: s.log.last_index() as Index,
                    last_log_term: s.log.last_term(),
                    force,
                },
            )
    }
}

/// Of the voters, only the node itself is a majority exactly if it is the only one.
proof fn lemma_sole_voter(s: NodeModel)
    requires
        s.wf(),
        s.members.contains(s.cfg.id),
    ensures
        s.members == seq![s.cfg.id] <==> 1 >= s.quorum(),
        s.members == seq![s.cfg.id] <==> s.members.len() == 1,
{
    if s.members.len() == 1 {
        let k = choose|k: int| 0 <= k < s.members.len() && s.members[k] == s.cfg.id;
        assert(s.members[0] == s.cfg.id);
        assert(s.members =~= seq![s.cfg.id]);
    }
}

/// One message for each of the others is one for each voter but the node.
proof fn lemma_one_each(s: NodeModel, out: Seq<ActionModel>)
    requires
        crate::members::ascending(s.members),
        out.len() == s.others().len(),
        forall|i: int|
            0 <= i < out.len() ==> (#[trigger] out[i] matches ActionModel::Send { to, .. } && to
                == s.others()[i]),
    ensures
        one_each(s.members, s.cfg.id, out),
{
    crate::upkeep::lemma_others(s);
    assert forall|i: int| 0 <= i < out.len() implies (#[trigger] out[i] matches ActionModel::Send {
        to,
        ..
    } && s.members.contains(to) && to != s.cfg.id) by {
        assert(s.others().contains(s.others()[i]));
    }
    assert forall|m: NodeId| s.members.contains(m) && m != s.cfg.id implies exists|i: int|
        0 <= i < out.len() && (#[trigger] out[i])->to == m by {
        assert(s.others().contains(m));
        let k = choose|k: int| 0 <= k < s.others().len() && s.others()[k] == m;
        assert(out[k]->to == m);
    }
}

/// Standing for election does what it is for.
proof fn lemma_stood(s: NodeModel, force: bool)
    requires
        s.wf(),
        s.term < u64::MAX,
        s.members.contains(s.cfg.id),
    ensures
        stood(s, s.election(force).0, s.election(force).1, force),
{
    let mid = s.campaigning();
    let (t, out) = s.election(force);
    crate::upkeep::lemma_campaigning(s);
    crate::rng::law_draw_is_in_range(
        s.rng,
        s.cfg.election_timeout_min,
        s.cfg.election_timeout_max,
    );
    lemma_sole_voter(s);
    if 1 >= mid.quorum() {
        crate::upkeep::lemma_leading(mid);
        crate::upkeep::lemma_broadcast(mid.leading());
        let (sent, said) = mid.leading().broadcast();
        crate::upkeep::lemma_committed(sent);
        assert(sent.members == s.members);
        assert(sent.is_voter());
        lemma_commits_send_nothing(sent);
        crate::upkeep::lemma_others(mid);
        if mid.others().len() > 0 {
            assert(mid.others().contains(mid.others()[0]));
            assert(s.members[0] == s.cfg.id);
        }
        assert(said.len() == 0);
        assert(out =~= sent.committed().1);
    } else {
        assert(mid.others() == s.others());
        lemma_one_each(s, out);
        assert(mid.log.last_term() == s.log.last_term());
    }
}

/// A node that does not lead counts its ticks. On the one with which it has waited as
/// long as its timeout says, a voter stands for election; on every other one, and if it
/// has no vote, nothing happens but the counting.
pub proof fn law_a_voter_stands_when_its_timeout_is_over(s: NodeModel)
    requires
        s.wf(),
        s.role != Role::Leader,
        s.term < u64::MAX,
    ensures
        s.step(EventModel::Tick) matches StepModel::Moved(t, out) && if s.members.contains(s.cfg.id)
            && s.election_elapsed + 1 >= s.election_timeout {
            stood(s, t, out, false)
        } else {
            &&& out.len() == 0
            &&& t == (NodeModel {
                election_elapsed: t.election_elapsed,
                leader_elapsed: t.leader_elapsed,
                ..s
            })
            &&& s.election_elapsed < u32::MAX ==> t.election_elapsed == s.election_elapsed + 1
            &&& s.leader_elapsed < u32::MAX ==> t.leader_elapsed == s.leader_elapsed + 1
            &&& t.election_elapsed >= s.election_elapsed
            &&& t.leader_elapsed >= s.leader_elapsed
        },
{
    let mid = s.ticked();
    if mid.election_due() {
        assert(mid.voters() == s.voters());
        assert(mid.others() == s.others());
        assert(mid.wf());
        lemma_stood(mid, false);
    }
}

/// The node in the term of a message, if that is a later one: a follower, with its
/// vote free and no leader known. Nothing else changes.
pub open spec fn in_term(s: NodeModel, t: NodeModel, term: Term) -> bool {
    if term > s.term {
        &&& t.role == Role::Follower
        &&& t.term == term
        &&& t.voted_for is None
        &&& t.leader is None
        &&& t.votes.len() == 0
        &&& t.progress.len() == 0
        &&& t.transfer is None
        &&& t.log.hard == (HardState { term, voted_for: None })
        &&& t.log.entries == s.log.entries
        &&& t.log.snapshot == s.log.snapshot
        &&& t == (NodeModel {
            role: t.role,
            term: t.term,
            voted_for: t.voted_for,
            leader: t.leader,
            votes: t.votes,
            progress: t.progress,
            transfer: t.transfer,
            log: t.log,
            ..s
        })
    } else {
        t == s
    }
}

/// The signal to take over has a voter stand at once, in the term after the signal's,
/// with force. A signal of an earlier term, one to a leader of its own term and one to
/// a node without a vote do no more than bring a later term.
pub proof fn law_the_signal_to_take_over_is_followed_at_once(s: NodeModel, m: TimeoutNow)
    requires
        s.wf(),
        m.term < u64::MAX,
    ensures
        s.step(EventModel::Message(MessageModel::TimeoutNow(m))) matches StepModel::Moved(t, out)
            && if m.term < s.term || (m.term == s.term && s.role == Role::Leader)
            || !s.members.contains(s.cfg.id) {
            in_term(s, t, m.term) && out.len() == 0
        } else {
            stood(NodeModel { term: m.term, ..s }, t, out, true)
        },
{
    let mid = s.seen(m.term);
    crate::upkeep::lemma_seen(s, m.term);
    if !(m.term < s.term || (m.term == s.term && s.role == Role::Leader) || !s.members.contains(
        s.cfg.id,
    )) {
        lemma_stood(mid, true);
        assert(mid.log.last_term() == s.log.last_term());
    }
}

/// The node follows a leader that it has heard from within the least time that an
/// election timeout may last, or leads itself.
pub open spec fn has_a_leader(s: NodeModel) -> bool {
    s.role == Role::Leader || (s.leader is Some && s.leader_elapsed < s.cfg.election_timeout_min)
}

/// A log that ends with `term` at `index` is at least as up to date as the node's.
pub open spec fn will_do(s: NodeModel, term: Term, index: Index) -> bool {
    let last = s.log.last_index();
    let own = s.log.term_at(last)->0;
    term > own || (term == own && index >= last)
}

/// The last term of a log is the term at its last index.
proof fn lemma_last_term(log: LogModel)
    requires
        log.wf(),
    ensures
        log.term_at(log.last_index()) == Some(log.last_term()),
{
}

/// A probe is granted exactly if its term is not behind, the candidate's log is at
/// least as up to date, and no leader is active. It changes nothing, and is answered
/// with the term the node is in. The answer to a probe changes nothing either.
pub proof fn law_what_a_probe_is_answered(s: NodeModel, m: PreVote, r: PreVoteReply)
    requires
        s.wf(),
    ensures
        s.step(EventModel::Message(MessageModel::PreVote(m))) == StepModel::Moved(
            s,
            seq![
                ActionModel::Send {
                    to: m.candidate,
                    message: MessageModel::PreVoteReply(
                        PreVoteReply {
                            term: s.term,
                            vote_granted: m.term >= s.term && will_do(
                                s,
                                m.last_log_term,
                                m.last_log_index,
                            ) && !has_a_leader(s),
                            from: s.cfg.id,
                        },
                    ),
                },
            ],
        ),
        s.step(EventModel::Message(MessageModel::PreVoteReply(r))) == StepModel::Moved(
            s,
            Seq::empty(),
        ),
{
    lemma_last_term(s.log);
}

/// A request for a vote is ignored by a node with an active leader, unless it is
/// forced. Any other is answered, in the later of the two terms, and granted exactly
/// if its term is not behind, the vote of that term is free or was given to the same
/// candidate, and the candidate's log is at least as up to date. A vote granted is on
/// record, and the timer starts afresh. What the node holds stays as it is.
pub proof fn law_when_a_vote_is_granted(s: NodeModel, m: RequestVote)
    requires
        s.wf(),
    ensures
        s.step(EventModel::Message(MessageModel::RequestVote(m))) matches StepModel::Moved(t, out)
            && if has_a_leader(s) && !m.force {
            t == s && out.len() == 0
        } else {
            let granted = m.term >= s.term && (m.term > s.term || s.voted_for is None || s.voted_for
                == Some(m.candidate)) && will_do(s, m.last_log_term, m.last_log_index);
            let term = if m.term > s.term {
                m.term
            } else {
                s.term
            };
            &&& out == seq![
                ActionModel::Send {
                    to: m.candidate,
                    message: MessageModel::RequestVoteReply(
                        RequestVoteReply { term, vote_granted: granted, from: s.cfg.id },
                    ),
                },
            ]
            &&& t.term == term
            &&& t.voted_for == (if granted {
                Some(m.candidate)
            } else if m.term > s.term {
                None
            } else {
                s.voted_for
            })
            &&& t.log.hard == (HardState { term, voted_for: t.voted_for })
            &&& t.log.entries == s.log.entries
            &&& t.log.snapshot == s.log.snapshot
            &&& t.commit == s.commit
            &&& t.applied == s.applied
            &&& t.members == s.members
            &&& m.term > s.term ==> t.role == Role::Follower && t.leader is None
            &&& m.term <= s.term ==> t.role == s.role && t.leader == s.leader && t.progress
                == s.progress && t.transfer == s.transfer && t.votes == s.votes
            &&& granted ==> drew(s, t)
            &&& !granted ==> t.election_elapsed == s.election_elapsed && t.election_timeout
                == s.election_timeout && t.rng == s.rng
            &&& t.leader_elapsed == s.leader_elapsed
        },
{
    lemma_last_term(s.log);
    crate::rng::law_draw_is_in_range(
        s.rng,
        s.cfg.election_timeout_min,
        s.cfg.election_timeout_max,
    );
}

// ---- what a leader sends -------------------------------------------------

/// `message` brings a voter forward whose next entry is at `next`: the snapshot, if
/// that entry is gone, else the entries from there on, as many as a batch may hold,
/// after what the voter must have before them.
pub open spec fn brings_forward(s: NodeModel, next: int, message: MessageModel) -> bool {
    if next <= s.log.base_index() {
        message matches MessageModel::InstallSnapshot(m) && m.term == s.term && m.leader == s.cfg.id
            && s.log.snapshot == Some(m.snapshot)
    } else {
        &&& message matches MessageModel::AppendEntries(m)
        &&& m.term == s.term
        &&& m.leader == s.cfg.id
        &&& m.prev_log_index == next - 1
        &&& s.log.term_at(next - 1) == Some(m.prev_log_term)
        &&& m.leader_commit == s.commit
        &&& m.entries.len() <= s.cfg.max_batch
        &&& m.entries.len() == s.cfg.max_batch || next + m.entries.len() == s.log.last_index() + 1
        &&& forall|k: int|
            0 <= k < m.entries.len() ==> s.log.entry(next + k) == Some(#[trigger] m.entries[k])
    }
}

/// What is known of a voter once `message` is on its way: where batches are sent
/// without waiting, the next one starts where this one ends.
pub open spec fn underway(p: Progress, message: MessageModel) -> Progress {
    match message {
        MessageModel::AppendEntries(m) => if p.streaming {
            Progress { next: (p.next + m.entries.len()) as Index, ..p }
        } else {
            p
        },
        _ => p,
    }
}

/// A leader's next message to a voter brings it forward.
proof fn lemma_brings_forward(s: NodeModel, p: Progress)
    requires
        s.log.wf(),
        s.log.last_index() < u64::MAX,
        s.cfg.usable(),
        p.matched < p.next <= s.log.last_index() + 1,
    ensures
        brings_forward(s, p.next as int, s.outgoing(p)),
        s.after_sending(p) == underway(p, s.outgoing(p)),
{
    crate::upkeep::lemma_after_sending(s, p);
    if p.next > s.log.base_index() {
        let batch = s.batch(p);
        let end = p.next + s.cfg.max_batch - 1;
        let to = if end <= s.log.last_index() {
            end
        } else {
            s.log.last_index()
        };
        assert(batch =~= s.log.between(p.next as int, to));
        crate::upkeep::lemma_between(s.log, p.next as int, to);
    }
}

/// A leader in `s` tells every other voter what comes next for it, and then knows `t`'s
/// share of them.
pub open spec fn told_all(s: NodeModel, progress: Seq<Progress>, out: Seq<ActionModel>) -> bool {
    &&& one_each(s.members, s.cfg.id, out)
    &&& out.len() == s.progress.len()
    &&& progress.len() == s.progress.len()
    &&& forall|i: int|
        0 <= i < out.len() ==> {
            let p = s.progress[i];
            &&& (#[trigger] out[i])->to == p.peer
            &&& brings_forward(s, p.next as int, out[i]->message)
            &&& progress[i] == underway(p, out[i]->message)
        }
}

/// A broadcast tells every other voter what comes next for it.
proof fn lemma_told_all(s: NodeModel)
    requires
        s.wf(),
        s.role == Role::Leader,
    ensures
        told_all(s, s.broadcast().0.progress, s.broadcast().1),
{
    let (t, out) = s.broadcast();
    lemma_one_each(s, out);
    assert forall|i: int| 0 <= i < out.len() implies {
        let p = s.progress[i];
        &&& (#[trigger] out[i])->to == p.peer
        &&& brings_forward(s, p.next as int, out[i]->message)
        &&& t.progress[i] == underway(p, out[i]->message)
    } by {
        lemma_brings_forward(s, s.progress[i]);
    }
}

/// With every tick a leader counts towards its heartbeat. When the interval is full,
/// every other voter is told what comes next for it, and the count starts afresh; on
/// every other tick nothing is sent. A transfer under way is given up with the tick
/// that makes it as old as the election timeout, and not before.
pub proof fn law_a_leader_sends_heartbeats(s: NodeModel)
    requires
        s.wf(),
        s.role == Role::Leader,
    ensures
        s.step(EventModel::Tick) matches StepModel::Moved(t, out) && {
            &&& t == (NodeModel {
                heartbeat_elapsed: t.heartbeat_elapsed,
                election_elapsed: t.election_elapsed,
                transfer: t.transfer,
                progress: t.progress,
                ..s
            })
            &&& if s.heartbeat_elapsed + 1 == s.cfg.heartbeat_interval {
                t.heartbeat_elapsed == 0 && told_all(s, t.progress, out)
            } else {
                t.heartbeat_elapsed == s.heartbeat_elapsed + 1 && out.len() == 0 && t.progress
                    == s.progress
            }
            &&& match s.transfer {
                None => t.transfer is None && t.election_elapsed == s.election_elapsed,
                Some(target) => if s.election_elapsed + 1 >= s.election_timeout {
                    t.transfer is None
                } else {
                    t.transfer == s.transfer && t.election_elapsed == s.election_elapsed + 1
                },
            }
        },
{
    let mid = NodeModel { heartbeat_elapsed: 0, ..s.awaiting_transfer() };
    assert(mid.voters() == s.voters());
    assert(mid.others() == s.others());
    assert(mid.wf());
    lemma_told_all(mid);
    assert forall|next: int, message: MessageModel| brings_forward(mid, next, message)
        == #[trigger] brings_forward(s, next, message) by {}
}

/// Where a vote leads: the first that a candidate gets from a voter in its term counts,
/// and the one that makes a majority elects it. The new leader tells every other voter
/// of itself, starting from the end of its own log. Any other answer changes nothing but
/// that a later term is entered.
pub proof fn law_a_majority_of_votes_elects(s: NodeModel, m: RequestVoteReply)
    requires
        s.wf(),
    ensures
        s.step(EventModel::Message(MessageModel::RequestVoteReply(m))) matches StepModel::Moved(
            t,
            out,
        ) && if s.role == Role::Candidate && m.term == s.term && m.vote_granted
            && s.members.contains(m.from) && !s.votes.contains(m.from) {
            if 2 * (s.votes.len() + 1) > s.members.len() {
                &&& t.term == s.term
                &&& t.log == s.log
                &&& t.members == s.members
                &&& t.voted_for == s.voted_for
                &&& t.commit >= s.commit
                &&& s.members != seq![s.cfg.id] ==> {
                    &&& t.role == Role::Leader
                    &&& t.leader == Some(s.cfg.id)
                    &&& t.commit == s.commit
                    &&& t.applied == s.applied
                    &&& t.transfer is None
                    &&& t.heartbeat_elapsed == 0
                    &&& one_each(s.members, s.cfg.id, out)
                    &&& t.progress.len() == out.len()
                    &&& forall|i: int|
                        0 <= i < out.len() ==> {
                            &&& brings_forward(
                                s,
                                s.log.last_index() + 1,
                                (#[trigger] out[i])->message,
                            )
                            &&& t.progress[i] == (Progress {
                                peer: out[i]->to,
                                next: (s.log.last_index() + 1) as Index,
                                matched: 0,
                                streaming: false,
                            })
                        }
                }
            } else {
                t == (NodeModel { votes: s.votes.push(m.from), ..s }) && out.len() == 0
            }
        } else {
            in_term(s, t, m.term) && out.len() == 0
        },
{
    let mid = s.seen(m.term);
    if s.role == Role::Candidate && m.term == s.term && m.vote_granted && s.members.contains(m.from)
        && !s.votes.contains(m.from) && 2 * (s.votes.len() + 1) > s.members.len() {
        let counted = s.counting(m.from);
        assert(counted.wf());
        crate::upkeep::lemma_leading(counted);
        let lead = counted.leading();
        let (sent, out) = lead.broadcast();
        crate::upkeep::lemma_broadcast(lead);
        crate::upkeep::lemma_committed(sent);
        crate::upkeep::lemma_commit_target(sent, sent.log.last_index());
        if s.members != seq![s.cfg.id] {
            lemma_told_all(lead);
            lemma_nothing_known(sent, sent.log.last_index());
            assert(out + Seq::<ActionModel>::empty() =~= out);
            assert forall|i: int| 0 <= i < out.len() implies {
                &&& brings_forward(s, s.log.last_index() + 1, (#[trigger] out[i])->message)
                &&& sent.progress[i] == (Progress {
                    peer: out[i]->to,
                    next: (s.log.last_index() + 1) as Index,
                    matched: 0,
                    streaming: false,
                })
            } by {
                let p = lead.progress[i];
                assert(brings_forward(lead, p.next as int, out[i]->message));
            }
        }
    }
}

/// A leader that knows nothing of the others commits nothing, unless it is the only
/// voter.
proof fn lemma_nothing_known(s: NodeModel, index: int)
    requires
        s.wf(),
        s.role == Role::Leader,
        s.members != seq![s.cfg.id],
        forall|i: int| 0 <= i < s.progress.len() ==> (#[trigger] s.progress[i]).matched == 0,
    ensures
        s.commit_target(index) == s.commit,
    decreases index,
{
    if index > s.commit {
        let have = s.holds_through(index);
        assert forall|x: NodeId| s.members.contains(x) && #[trigger] have(x) implies x
            == s.cfg.id by {
            if x != s.cfg.id {
                crate::upkeep::lemma_every_other_voter_is_tracked(s, x);
                crate::upkeep::lemma_slot_of(s.progress, x);
            }
        }
        crate::laws::lemma_only_one(s.members, s.cfg.id, have);
        if s.members.contains(s.cfg.id) {
            lemma_sole_voter(s);
        }
        assert(!s.may_commit(index));
        lemma_nothing_known(s, index - 1);
    }
}

// ---- handing over --------------------------------------------------------

/// The voter `peer` is tracked at `slot`.
pub open spec fn known_at(s: NodeModel, peer: NodeId, slot: int) -> bool {
    0 <= slot < s.progress.len() && s.progress[slot].peer == peer
}

/// A voter is tracked in one place only.
proof fn lemma_tracked_once(s: NodeModel, peer: NodeId, slot: int)
    requires
        s.wf(),
        s.role == Role::Leader,
        known_at(s, peer, slot),
    ensures
        crate::model::slot_of(s.progress, peer) == slot,
        s.members.contains(peer),
        peer != s.cfg.id,
{
    let k = crate::model::slot_of(s.progress, peer);
    crate::upkeep::lemma_slot_of(s.progress, peer);
    crate::upkeep::lemma_others(s);
    assert(k <= slot);
    assert(s.progress[k].peer == s.others()[k]);
    assert(s.progress[slot].peer == s.others()[slot]);
    assert(s.others().contains(s.others()[slot]));
}

/// A node that is no other voter is not tracked.
proof fn lemma_untracked(s: NodeModel, peer: NodeId)
    requires
        s.wf(),
        s.role == Role::Leader,
        !s.members.contains(peer) || peer == s.cfg.id,
    ensures
        crate::model::slot_of(s.progress, peer) == s.progress.len(),
{
    let k = crate::model::slot_of(s.progress, peer);
    crate::upkeep::lemma_slot_of(s.progress, peer);
    crate::upkeep::lemma_others(s);
    if k < s.progress.len() {
        assert(s.progress[k].peer == s.others()[k]);
        assert(s.others().contains(peer));
    }
}

/// A transfer to another voter is taken up by a leader, from then on: a target that has
/// the whole log is told at once to take over, one that has not is told what comes next
/// for it. A target that has no vote, or leads itself, changes nothing, and a node that
/// does not lead names the leader it knows.
pub proof fn law_a_transfer_is_taken_up(s: NodeModel, target: NodeId, slot: int)
    requires
        s.wf(),
    ensures
        s.role != Role::Leader ==> s.step(EventModel::TransferLeadership(target))
            == StepModel::Refused(ErrorModel::NotLeader { leader: s.leader }),
        s.role == Role::Leader && (!s.members.contains(target) || target == s.cfg.id) ==> s.step(
            EventModel::TransferLeadership(target),
        ) == StepModel::Moved(s, Seq::empty()),
        s.role == Role::Leader && known_at(s, target, slot) ==> (s.step(
            EventModel::TransferLeadership(target),
        ) matches StepModel::Moved(t, out) && {
            &&& t == (NodeModel {
                transfer: Some(target),
                election_elapsed: 0,
                progress: t.progress,
                ..s
            })
            &&& if s.progress[slot].matched == s.log.last_index() {
                &&& t.progress == s.progress
                &&& out == seq![
                    ActionModel::Send {
                        to: target,
                        message: MessageModel::TimeoutNow(
                            TimeoutNow { term: s.term, leader: s.cfg.id },
                        ),
                    },
                ]
            } else {
                &&& out.len() == 1
                &&& out[0] matches ActionModel::Send { to, message }
                &&& to == target
                &&& brings_forward(s, s.progress[slot].next as int, message)
                &&& t.progress == s.progress.update(slot, underway(s.progress[slot], message))
            }
        }),
        s.role == Role::Leader && s.members.contains(target) && target != s.cfg.id ==> exists|k: int|
            known_at(s, target, k),
{
    if s.role == Role::Leader {
        if !s.members.contains(target) || target == s.cfg.id {
            lemma_untracked(s, target);
        } else {
            crate::upkeep::lemma_every_other_voter_is_tracked(s, target);
            crate::upkeep::lemma_slot_of(s.progress, target);
            assert(known_at(s, target, crate::model::slot_of(s.progress, target)));
        }
        if known_at(s, target, slot) {
            lemma_tracked_once(s, target, slot);
            let next = NodeModel { transfer: Some(target), election_elapsed: 0, ..s };
            let p = s.progress[slot];
            assert(next.progress[slot] == p);
            lemma_brings_forward(next, p);
            assert(brings_forward(s, p.next as int, next.outgoing(p)));
        }
    }
}

/// The node after `n` ticks.
pub open spec fn after_ticks(s: NodeModel, n: nat) -> NodeModel
    decreases n,
{
    if n == 0 {
        s
    } else {
        match after_ticks(s, (n - 1) as nat).step(EventModel::Tick) {
            StepModel::Moved(t, _) => t,
            StepModel::Refused(_) => after_ticks(s, (n - 1) as nat),
        }
    }
}

/// A leader that is only ticked leads on, and keeps its log, its voters and what it has
/// committed.
proof fn lemma_leader_waits(s: NodeModel, n: nat)
    requires
        s.wf(),
        s.role == Role::Leader,
        s.transfer is Some,
        s.election_elapsed == 0,
        n <= s.election_timeout,
    ensures
        ({
            let t = after_ticks(s, n);
            &&& t.wf()
            &&& t == (NodeModel {
                heartbeat_elapsed: t.heartbeat_elapsed,
                election_elapsed: t.election_elapsed,
                transfer: t.transfer,
                progress: t.progress,
                ..s
            })
            &&& n < s.election_timeout ==> t.transfer == s.transfer && t.election_elapsed == n
            &&& n == s.election_timeout ==> t.transfer is None
        }),
    decreases n,
{
    if n > 0 {
        let before = (n - 1) as nat;
        let mid = after_ticks(s, before);
        lemma_leader_waits(s, before);
        law_a_leader_sends_heartbeats(mid);
        crate::upkeep::lemma_on_tick(mid);
    }
}

/// A transfer lasts as long as an election timeout. On every tick before that one the
/// leader still leads, with its log as it was, turns proposals and changes of the voters
/// away to the target, and tells the target to take over as soon as that has the whole
/// log. With that tick the transfer is given up, and proposals are taken again.
pub proof fn law_a_transfer_lasts_an_election_timeout(
    s: NodeModel,
    target: NodeId,
    n: nat,
    command: Seq<u8>,
    id: NodeId,
    ack: AppendEntriesReply,
)
    requires
        s.wf(),
        s.role == Role::Leader,
        s.members.contains(target),
        target != s.cfg.id,
        n <= s.election_timeout,
    ensures
        s.step(EventModel::TransferLeadership(target)) matches StepModel::Moved(begun, _) && {
            let t = after_ticks(begun, n);
            &&& t.role == Role::Leader
            &&& t.term == s.term
            &&& t.log == s.log
            &&& t.members == s.members
            &&& t.commit == s.commit
            &&& if n < s.election_timeout {
                let turned_away = StepModel::Refused(
                    ErrorModel::NotLeader { leader: Some(target) },
                );
                &&& t.transfer == Some(target)
                &&& t.step(EventModel::Propose(command)) == turned_away
                &&& t.step(EventModel::AddServer(id)) == turned_away
                &&& t.step(EventModel::RemoveServer(id)) == turned_away
                &&& ack.success && ack.term == s.term && ack.from == target && ack.match_index
                    == s.log.last_index() ==> (t.step(
                    EventModel::Message(MessageModel::AppendEntriesReply(ack)),
                ) matches StepModel::Moved(last, out) && (s.members.contains(s.cfg.id)
                    ==> last.role == Role::Leader) && (last.role == Role::Leader ==> out.contains(
                    ActionModel::Send {
                        to: target,
                        message: MessageModel::TimeoutNow(
                            TimeoutNow { term: s.term, leader: s.cfg.id },
                        ),
                    },
                )))
            } else {
                &&& t.transfer is None
                &&& t.step(EventModel::Propose(command)) is Moved
            }
        },
{
    let begun = s.step(EventModel::TransferLeadership(target))->Moved_0;
    crate::upkeep::lemma_every_other_voter_is_tracked(s, target);
    crate::upkeep::lemma_slot_of(s.progress, target);
    let slot = crate::model::slot_of(s.progress, target);
    law_a_transfer_is_taken_up(s, target, slot);
    crate::upkeep::lemma_on_transfer(s, target);
    lemma_leader_waits(begun, n);
    let t = after_ticks(begun, n);
    if n < s.election_timeout && ack.success && ack.term == s.term && ack.from == target
        && ack.match_index == s.log.last_index() {
        crate::upkeep::lemma_every_other_voter_is_tracked(t, target);
        let at = crate::model::slot_of(t.progress, target);
        crate::upkeep::lemma_slot_of(t.progress, target);
        let known = t.progress[at].agreeing(ack.match_index);
        assert(t.progress[at].peer == t.others()[at]);
        let mid = t.knowing(at, known);
        crate::upkeep::lemma_progress_update(t, at, known);
        let (next, done) = mid.committed();
        crate::upkeep::lemma_committed(mid);
        if next.role == Role::Leader {
            let sign = next.handover(at);
            let out = done + sign;
            assert(out[done.len() as int] == sign[0]);
        }
    }
}

// ---- committing ----------------------------------------------------------

/// The leader knows that `m` holds the log through `index`: of itself by its own log,
/// of any other by what that has acknowledged.
pub open spec fn has_through(s: NodeModel, m: NodeId, index: int) -> bool {
    if m == s.cfg.id {
        index <= s.log.last_index()
    } else {
        exists|k: int| #[trigger] known_at(s, m, k) && s.progress[k].matched >= index
    }
}

/// More than half of the voters are known to hold the log through `index`. A leader
/// that is none of them does not count.
pub open spec fn majority_has(s: NodeModel, index: int) -> bool {
    2 * s.members.filter(|m: NodeId| has_through(s, m, index)).len() > s.members.len()
}

/// Counting replicas, an index past what is committed may be committed: it is of the
/// leader's own term, and a majority holds it.
pub open spec fn ripe(s: NodeModel, index: int) -> bool {
    &&& s.commit < index <= s.log.last_index()
    &&& s.log.term_at(index) == Some(s.term)
    &&& majority_has(s, index)
}

/// Nothing waits to be committed.
pub open spec fn nothing_ripe(s: NodeModel) -> bool {
    s.role == Role::Leader ==> forall|index: int| !#[trigger] ripe(s, index)
}

/// What a majority is known to hold is what may be committed.
proof fn lemma_ripe(s: NodeModel, index: int)
    requires
        s.wf(),
        s.role == Role::Leader,
    ensures
        majority_has(s, index) <==> s.holders(index).len() >= s.quorum(),
        s.commit < index <= s.log.last_index() ==> (ripe(s, index) <==> s.may_commit(index)),
{
    let p = |m: NodeId| has_through(s, m, index);
    let q = s.holds_through(index);
    assert forall|i: int| 0 <= i < s.members.len() implies p(#[trigger] s.members[i]) == q(
        s.members[i],
    ) by {
        let m = s.members[i];
        assert(s.members.contains(m));
        if m != s.cfg.id {
            crate::upkeep::lemma_every_other_voter_is_tracked(s, m);
            crate::upkeep::lemma_slot_of(s.progress, m);
            let at = crate::model::slot_of(s.progress, m);
            assert(known_at(s, m, at));
            if has_through(s, m, index) {
                let k = choose|k: int| #[trigger] known_at(s, m, k) && s.progress[k].matched >= index;
                lemma_tracked_once(s, m, k);
            }
        }
    }
    crate::laws::lemma_filter_alike(s.members, p, q);
}

/// Below the target nothing may be committed that is past it.
proof fn lemma_target_is_greatest(s: NodeModel, index: int, n: int)
    requires
        s.commit_target(index) < n <= index,
    ensures
        !s.may_commit(n),
    decreases index,
{
    if n < index {
        lemma_target_is_greatest(s, index - 1, n);
    }
}

/// Where nothing past the commit index may be committed, there is no further target.
proof fn lemma_no_target(s: NodeModel, index: int)
    requires
        forall|n: int| s.commit < n <= index ==> !#[trigger] s.may_commit(n),
    ensures
        s.commit_target(index) == s.commit,
    decreases index,
{
    if index > s.commit {
        lemma_no_target(s, index - 1);
    }
}

/// Nothing is ripe exactly where all is committed that may be.
proof fn lemma_nothing_ripe(s: NodeModel)
    requires
        s.wf(),
    ensures
        nothing_ripe(s) <==> s.caught_up(),
{
    if s.role == Role::Leader {
        let last = s.log.last_index();
        if s.caught_up() {
            assert forall|index: int| !#[trigger] ripe(s, index) by {
                if s.commit < index <= last {
                    lemma_target_is_greatest(s, last, index);
                    lemma_ripe(s, index);
                }
            }
        }
        if nothing_ripe(s) {
            assert forall|n: int| s.commit < n <= last implies !#[trigger] s.may_commit(n) by {
                assert(!ripe(s, n));
                lemma_ripe(s, n);
            }
            lemma_no_target(s, last);
        }
    }
}

/// What a leader has committed is held by a majority, and of its own term.
pub open spec fn well_committed(s: NodeModel, t: NodeModel) -> bool {
    t.role == Role::Leader && t.commit > s.commit ==> t.holders(t.commit as int).len()
        >= t.quorum() && t.log.term_at(t.commit as int) == Some(t.term)
}

/// A leader commits well, and so does one that has sent something since.
proof fn lemma_committed_well(s: NodeModel)
    requires
        s.wf(),
    ensures
        well_committed(s, s.committed().0),
{
    let target = s.commit_target(s.log.last_index());
    crate::upkeep::lemma_commit_target(s, s.log.last_index());
    if target > s.commit {
        let t = s.committed().0;
        if t.role == Role::Leader {
            assert forall|m: NodeId| #[trigger] t.matched(m) == s.matched(m) by {}
            assert(t.holds_through(target) =~= s.holds_through(target));
        }
    }
}

/// As much is known to be held where the same is known of the same voters.
proof fn lemma_holders_alike(s: NodeModel, t: NodeModel, index: int)
    requires
        s.wf(),
        s.role == Role::Leader,
        crate::laws::commits_alike(s, t),
    ensures
        t.holders(index) == s.holders(index),
{
    let (p, q) = (t.holds_through(index), s.holds_through(index));
    assert forall|i: int| 0 <= i < s.members.len() implies p(#[trigger] s.members[i]) == q(
        s.members[i],
    ) by {
        let m = s.members[i];
        assert(s.members.contains(m));
        if m != s.cfg.id {
            crate::laws::lemma_slots_alike(s.progress, t.progress, m);
            crate::upkeep::lemma_every_other_voter_is_tracked(s, m);
            crate::upkeep::lemma_slot_of(s.progress, m);
            let at = crate::model::slot_of(s.progress, m);
            assert(s.progress[at].matched == t.progress[at].matched);
        }
    }
    crate::laws::lemma_filter_alike(s.members, p, q);
}

/// An acknowledgement leads to good commits.
proof fn lemma_acknowledged_commits(s: NodeModel, slot: int, index: Index)
    requires
        s.wf(),
        s.role == Role::Leader,
        0 <= slot < s.progress.len(),
    ensures
        well_committed(s, s.acknowledged(slot, index).0),
{
    if index <= s.log.last_index() {
        let known = s.progress[slot].agreeing(index);
        let mid = s.knowing(slot, known);
        crate::upkeep::lemma_progress_update(s, slot, known);
        crate::upkeep::lemma_committed(mid);
        lemma_committed_well(mid);
        let next = mid.committed().0;
        if next.role == Role::Leader && known.next <= next.log.last_index() {
            let sent = next.sent_to(slot).0;
            crate::upkeep::lemma_after_sending(next, next.progress[slot]);
            assert(crate::laws::commits_alike(next, sent));
            lemma_holders_alike(next, sent, sent.commit as int);
        }
    }
}

/// Broadcasting and committing leads to good commits.
proof fn lemma_broadcast_commits(s: NodeModel)
    requires
        s.wf(),
    ensures
        well_committed(s, s.broadcast_and_committed().0),
{
    crate::upkeep::lemma_broadcast(s);
    lemma_committed_well(s.broadcast().0);
}

/// Every step leads to good commits.
proof fn lemma_step_commits(s: NodeModel, event: EventModel)
    requires
        s.wf(),
        s.has_room_for(event),
    ensures
        s.step(event) matches StepModel::Moved(t, _) ==> well_committed(s, t),
{
    match event {
        EventModel::Tick => {
            let mid = s.ticked();
            if s.role != Role::Leader && mid.election_due() {
                assert(mid.wf());
                crate::upkeep::lemma_campaigning(mid);
                crate::upkeep::lemma_leading(mid.campaigning());
                lemma_broadcast_commits(mid.campaigning().leading());
            }
        },
        EventModel::Message(m) => {
            let mid = s.seen(m.term());
            crate::upkeep::lemma_seen(s, m.term());
            match m {
                MessageModel::RequestVoteReply(x) => {
                    if mid.role == Role::Candidate && x.term == mid.term && x.vote_granted
                        && mid.members.contains(x.from) && !mid.votes.contains(x.from) {
                        let counted = mid.counting(x.from);
                        assert(counted.wf());
                        crate::upkeep::lemma_leading(counted);
                        lemma_broadcast_commits(counted.leading());
                    }
                },
                MessageModel::AppendEntries(x) => crate::laws::lemma_append_onward(mid, x),
                MessageModel::AppendEntriesReply(x) => {
                    let slot = crate::model::slot_of(mid.progress, x.from);
                    crate::upkeep::lemma_slot_of(mid.progress, x.from);
                    if mid.role == Role::Leader && x.term == mid.term && slot < mid.progress.len()
                        && x.success {
                        lemma_acknowledged_commits(mid, slot, x.match_index);
                    }
                },
                MessageModel::InstallSnapshot(x) => crate::laws::lemma_install_onward(mid, x),
                MessageModel::InstallSnapshotReply(x) => {
                    let slot = crate::model::slot_of(mid.progress, x.from);
                    crate::upkeep::lemma_slot_of(mid.progress, x.from);
                    if mid.role == Role::Leader && x.term == mid.term && slot
                        < mid.progress.len() {
                        lemma_acknowledged_commits(mid, slot, x.last_index);
                    }
                },
                MessageModel::TimeoutNow(x) => {
                    if !(x.term < mid.term || mid.role == Role::Leader || !mid.is_voter()) {
                        crate::upkeep::lemma_campaigning(mid);
                        crate::upkeep::lemma_leading(mid.campaigning());
                        lemma_broadcast_commits(mid.campaigning().leading());
                    }
                },
                _ => {},
            }
        },
        EventModel::Propose(command) => {
            if s.refusal() is None {
                crate::upkeep::lemma_command_appended(s, command);
                lemma_broadcast_commits(s.appended(s.next_command(command)));
            }
        },
        EventModel::AddServer(id) => {
            if s.starts_change(event) {
                crate::members::lemma_insert_id(s.members, id);
                crate::upkeep::lemma_changed(s, crate::members::insert_id(s.members, id));
                lemma_broadcast_commits(s.changed(crate::members::insert_id(s.members, id)));
            }
        },
        EventModel::RemoveServer(id) => {
            if s.starts_change(event) {
                crate::members::lemma_without(s.members, id);
                crate::upkeep::lemma_changed(s, crate::members::without(s.members, id));
                lemma_broadcast_commits(s.changed(crate::members::without(s.members, id)));
            }
        },
        _ => {},
    }
}

/// An entry is committed as soon as a majority of the voters is known to hold it, if it
/// is of the leader's own term, and with it all before it; no sooner, and no later.
/// Whatever happens, a leader with nothing left to commit still has nothing left, and
/// where its commit index rose, a majority holds the entry there and it is its own.
pub proof fn law_a_leader_commits_what_a_majority_holds(s: NodeModel, event: EventModel)
    requires
        s.wf(),
        s.has_room_for(event),
        nothing_ripe(s),
    ensures
        s.step(event) matches StepModel::Moved(t, _) ==> {
            &&& nothing_ripe(t)
            &&& t.role == Role::Leader && t.commit > s.commit ==> majority_has(t, t.commit as int)
                && t.log.term_at(t.commit as int) == Some(t.term)
            &&& t.applied >= s.applied && (s.applied == s.commit ==> t.applied == t.commit)
        },
{
    lemma_nothing_ripe(s);
    crate::laws::law_a_leader_has_committed_all_it_may(s, event);
    crate::upkeep::law_every_step_keeps_the_node_well_formed(s, event);
    if let StepModel::Moved(t, out) = s.step(event) {
        lemma_nothing_ripe(t);
        crate::laws::lemma_step_onward(s, event);
        if s.applied == s.commit {
            crate::laws::law_everything_committed_is_applied(s, event);
        }
        if t.role == Role::Leader && t.commit > s.commit {
            lemma_step_commits(s, event);
            lemma_ripe(t, t.commit as int);
        }
    }
}

/// A leader that is the only voter leaves no entry of its own uncommitted.
proof fn lemma_alone_all_is_committed(t: NodeModel)
    requires
        t.wf(),
        t.role == Role::Leader,
        nothing_ripe(t),
        t.members == seq![t.cfg.id],
        t.log.term_at(t.log.last_index()) == Some(t.term),
    ensures
        t.commit == t.log.last_index(),
{
    let last = t.log.last_index();
    if t.commit < last {
        let have = |m: NodeId| has_through(t, m, last);
        reveal(Seq::filter);
        assert(have(t.cfg.id));
        assert(t.members.drop_last() =~= Seq::<NodeId>::empty());
        assert(t.members.drop_last().filter(have) =~= Seq::<NodeId>::empty());
        assert(t.members.filter(have).len() == 1);
        assert(ripe(t, last));
    }
}

// ---- proposals -----------------------------------------------------------

/// A leader that is not handing over puts a proposed command at the end of its log, in
/// its own term. With other voters about, it tells each of them what comes next for it,
/// commits nothing yet, and that is all; on its own it commits the command at once.
/// Nobody else takes a proposal.
pub proof fn law_a_proposal_is_appended_and_sent(s: NodeModel, command: Seq<u8>)
    requires
        s.wf(),
        s.log.last_index() + 1 < u64::MAX,
        nothing_ripe(s),
    ensures
        s.role != Role::Leader ==> s.step(EventModel::Propose(command)) == StepModel::Refused(
            ErrorModel::NotLeader { leader: s.leader },
        ),
        s.role == Role::Leader && s.transfer is Some ==> s.step(EventModel::Propose(command))
            == StepModel::Refused(ErrorModel::NotLeader { leader: s.transfer }),
        s.role == Role::Leader && s.transfer is None ==> (s.step(
            EventModel::Propose(command),
        ) matches StepModel::Moved(t, out) && {
            let entry = EntryModel {
                term: s.term,
                index: (s.log.last_index() + 1) as Index,
                kind: EntryKind::Normal,
                command,
            };
            let lead = NodeModel {
                log: LogModel { entries: s.log.entries.push(entry), ..s.log },
                ..s
            };
            &&& t == (NodeModel {
                commit: t.commit,
                applied: t.applied,
                progress: t.progress,
                ..lead
            })
            &&& if s.members == seq![s.cfg.id] {
                t.commit == s.log.last_index() + 1 && t.applied == t.commit && out.contains(
                    ActionModel::Apply { index: entry.index, term: s.term, command },
                )
            } else {
                t.commit == s.commit && t.applied == s.applied && told_all(lead, t.progress, out)
            }
        }),
{
    if s.role == Role::Leader && s.transfer is None {
        let event = EventModel::Propose(command);
        let entry = s.next_command(command);
        let mid = s.appended(entry);
        assert(s.log.entries + seq![entry] =~= s.log.entries.push(entry));
        lemma_nothing_ripe(s);
        crate::laws::law_a_proposal_waits_for_the_other_voters(s, command);
        crate::upkeep::lemma_command_appended(s, command);
        crate::upkeep::lemma_broadcast(mid);
        lemma_told_all(mid);
        crate::upkeep::lemma_committed(mid.broadcast().0);
        let t = s.step(event)->Moved_0;
        let out = s.step(event)->Moved_1;
        if s.members == seq![s.cfg.id] {
            crate::laws::law_commands_are_applied_once_and_in_order(s, event);
            assert(t.log.at(t.commit as int) == entry);
            assert(s.members[0] == s.cfg.id);
            assert(t.is_voter());
        } else {
            assert(s.others().len() > 0) by {
                crate::upkeep::lemma_others(s);
                if s.members.len() == 1 {
                    if s.members[0] == s.cfg.id {
                        assert(s.members =~= seq![s.cfg.id]);
                    }
                    assert(s.members.contains(s.members[0]));
                    assert(s.others().contains(s.members[0]));
                } else {
                    assert(s.members[0] < s.members[1]);
                    assert(s.members.contains(s.members[0]) && s.members.contains(s.members[1]));
                    if s.members[0] == s.cfg.id {
                        assert(s.others().contains(s.members[1]));
                    } else {
                        assert(s.others().contains(s.members[0]));
                    }
                }
            }
        }
    }
}

// ---- changes of the voters -----------------------------------------------

/// The entry is a configuration that names at least one voter.
pub open spec fn names_voters(e: EntryModel) -> bool {
    e.kind == EntryKind::Config && e.command.len() >= 8
}

/// A change of the voters is in the log and not yet committed.
pub open spec fn change_pending(s: NodeModel) -> bool {
    exists|i: int| s.commit < i && #[trigger] s.log.holds(i) && names_voters(s.log.at(i))
}

/// An entry puts voters in place exactly if it names any.
proof fn lemma_names_voters(e: EntryModel)
    ensures
        names_voters(e) <==> crate::model::voters_in(e) is Some,
{
}

/// A change is in flight exactly where one is pending.
proof fn lemma_change_pending(s: NodeModel)
    requires
        s.wf(),
    ensures
        change_pending(s) <==> s.change_in_flight(),
{
    let end = crate::model::config_end(s.log.entries);
    crate::upkeep::lemma_config_end(s.log.entries);
    let at = s.log.base_index() + end;
    if s.change_in_flight() {
        assert(s.log.holds(at));
        assert(s.log.at(at) == s.log.entries[end - 1]);
        lemma_names_voters(s.log.at(at));
    }
    if change_pending(s) {
        let i = choose|i: int|
            s.commit < i && #[trigger] s.log.holds(i) && names_voters(s.log.at(i));
        lemma_names_voters(s.log.at(i));
        assert(s.log.at(i) == s.log.entries[i - s.log.base_index() - 1]);
    }
}

/// From `s`, a leader that has changed the voters is in `t` and hands out `out`. Its log
/// ends with a configuration of its own term that names the new voters, and they are its
/// members at once. It tells of them first; then each other one of them is told what
/// comes next for it, where one that is new is taken to have the whole log. A leader that
/// keeps its vote leads on, and on its own commits the change at once.
pub open spec fn changed_voters(s: NodeModel, t: NodeModel, out: Seq<ActionModel>) -> bool {
    let last = s.log.last_index();
    let grown = NodeModel { log: t.log, members: t.members, ..s };
    &&& t.log.snapshot == s.log.snapshot
    &&& t.log.hard == s.log.hard
    &&& t.log.entries.len() == s.log.entries.len() + 1
    &&& t.log.entries.drop_last() == s.log.entries
    &&& t.log.entries.last().term == s.term
    &&& t.log.entries.last().index == last + 1
    &&& t.log.entries.last().kind == EntryKind::Config
    &&& t.log.entries.last().members() == Some(t.members)
    &&& crate::members::ascending(t.members)
    &&& t.term == s.term
    &&& t.voted_for == s.voted_for
    &&& out.len() > 0
    &&& out[0] == (ActionModel::MembershipChanged { members: t.members })
    &&& exists|n: int|
        {
            let sends = #[trigger] out.subrange(1, n);
            &&& 1 <= n <= out.len()
            &&& one_each(t.members, s.cfg.id, sends)
            &&& forall|i: int| n <= i < out.len() ==> !(#[trigger] out[i] is Send)
            &&& forall|i: int, k: int|
                #![trigger sends[i], s.progress[k]]
                0 <= i < sends.len() && known_at(s, sends[i]->to, k) ==> brings_forward(
                    grown,
                    s.progress[k].next as int,
                    sends[i]->message,
                )
            &&& forall|i: int|
                0 <= i < sends.len() && !s.members.contains((#[trigger] sends[i])->to)
                    ==> brings_forward(grown, last + 2, sends[i]->message)
            &&& t.role == Role::Leader ==> t.progress.len() == sends.len()
            &&& forall|i: int, k: int|
                #![trigger sends[i], s.progress[k]]
                0 <= i < sends.len() && known_at(s, sends[i]->to, k) && t.role == Role::Leader
                    ==> t.progress[i] == underway(s.progress[k], sends[i]->message)
            &&& forall|i: int|
                0 <= i < sends.len() && !s.members.contains((#[trigger] sends[i])->to) && t.role
                    == Role::Leader ==> t.progress[i] == (Progress {
                    peer: sends[i]->to,
                    next: (last + 2) as Index,
                    matched: 0,
                    streaming: false,
                })
        }
    &&& t.members.contains(s.cfg.id) ==> t.role == Role::Leader
    &&& t.members == seq![s.cfg.id] ==> t.commit == last + 1
}

/// Putting voters in place does what it is for.
#[verifier::rlimit(40)]
proof fn lemma_changed_voters(s: NodeModel, event: EventModel, ids: Seq<NodeId>)
    requires
        s.wf(),
        s.role == Role::Leader,
        s.transfer is None,
        s.log.last_index() + 1 < u64::MAX,
        nothing_ripe(s),
        crate::members::ascending(ids),
        ids.len() > 0,
        s.step(event) == StepModel::Moved(s.on_change(ids).0, s.on_change(ids).1),
    ensures
        changed_voters(s, s.on_change(ids).0, s.on_change(ids).1),
        s.on_change(ids).0.members == ids,
{
    let last = s.log.last_index();
    let entry = s.next_config(ids);
    let mid = s.changed(ids);
    let (sent, said) = mid.broadcast();
    let (t, more) = sent.committed();
    let out = s.on_change(ids).1;
    let grown = NodeModel { log: t.log, members: t.members, ..s };
    crate::upkeep::lemma_changed(s, ids);
    crate::upkeep::lemma_broadcast(mid);
    crate::upkeep::lemma_committed(sent);
    lemma_told_all(mid);
    crate::types::law_config_entry_carries_its_members(s.term, (last + 1) as Index, ids);
    crate::members::lemma_sorted_ids_of_ascending(ids);
    assert(t.log.entries =~= s.log.entries.push(entry));
    assert(t.log.entries.drop_last() =~= s.log.entries);
    let n = 1 + said.len() as int;
    let sends = out.subrange(1, n);
    assert(sends =~= said);
    assert forall|i: int| n <= i < out.len() implies !(#[trigger] out[i] is Send) by {
        assert(out[i] == more[i - n]);
        lemma_commits_send_nothing(sent);
    }
    assert forall|i: int, k: int|
        #![trigger sends[i], s.progress[k]]
        0 <= i < sends.len() && known_at(s, sends[i]->to, k) implies brings_forward(
        grown,
        s.progress[k].next as int,
        sends[i]->message,
    ) by {
        let peer = mid.progress[i].peer;
        assert(said[i]->to == peer);
        lemma_tracked_once(s, peer, k);
        assert(mid.progress[i].peer == mid.others()[i]);
        assert(mid.progress[i] == s.progress[k]);
        assert(brings_forward(mid, s.progress[k].next as int, said[i]->message));
    }
    assert forall|i: int, k: int|
        #![trigger sends[i], s.progress[k]]
        0 <= i < sends.len() && known_at(s, sends[i]->to, k) && t.role
            == Role::Leader implies t.progress[i] == underway(
        s.progress[k],
        sends[i]->message,
    ) by {
        let peer = mid.progress[i].peer;
        assert(said[i]->to == peer);
        lemma_tracked_once(s, peer, k);
        assert(mid.progress[i].peer == mid.others()[i]);
        assert(mid.progress[i] == s.progress[k]);
    }
    assert forall|i: int|
        0 <= i < sends.len() && !s.members.contains((#[trigger] sends[i])->to) && t.role
            == Role::Leader implies t.progress[i] == (Progress {
        peer: sends[i]->to,
        next: (last + 2) as Index,
        matched: 0,
        streaming: false,
    }) by {
        let peer = mid.progress[i].peer;
        assert(said[i]->to == peer);
        lemma_untracked(s, peer);
        assert(mid.progress[i].peer == mid.others()[i]);
    }
    assert forall|i: int|
        0 <= i < sends.len() && !s.members.contains((#[trigger] sends[i])->to) implies brings_forward(
        grown,
        last + 2,
        sends[i]->message,
    ) by {
        let peer = mid.progress[i].peer;
        assert(said[i]->to == peer);
        lemma_untracked(s, peer);
        assert(mid.progress[i].peer == mid.others()[i]);
        assert(mid.progress[i].next == last + 2);
        assert(brings_forward(mid, last + 2, said[i]->message));
    }
    law_a_leader_commits_what_a_majority_holds(s, event);
    if t.members == seq![s.cfg.id] {
        assert(t.members[0] == s.cfg.id);
        assert(t.is_voter());
        crate::upkeep::lemma_on_change(s, ids);
        assert(t.log.at(last + 1) == entry);
        lemma_alone_all_is_committed(t);
    }
}

/// Committing sends nothing.
proof fn lemma_commits_send_nothing(s: NodeModel)
    requires
        s.wf(),
    ensures
        forall|i: int|
            0 <= i < s.committed().1.len() ==> !(#[trigger] s.committed().1[i] is Send),
{
    let target = s.commit_target(s.log.last_index());
    crate::upkeep::lemma_commit_target(s, s.log.last_index());
    if target > s.commit {
        let mid = NodeModel { commit: target as Index, ..s };
        crate::laws::lemma_run_applies_well(mid.log, mid.applied as int, mid.commit as int);
    }
}

/// Only a leader that is not handing over, and has no change pending, changes the voters.
pub open spec fn takes_changes(s: NodeModel) -> bool {
    s.role == Role::Leader && s.transfer is None && !change_pending(s)
}

/// Why a change of the voters is turned down.
pub open spec fn turned_down(s: NodeModel) -> ErrorModel {
    if s.role != Role::Leader {
        ErrorModel::NotLeader { leader: s.leader }
    } else if s.transfer is Some {
        ErrorModel::NotLeader { leader: s.transfer }
    } else {
        ErrorModel::ConfigInProgress
    }
}

/// Adding a node to the voters: the voters are then those there were and the new one,
/// by a configuration at the end of the log, which takes effect at once. One that votes
/// already changes nothing, and a node that cannot take the request turns it down.
pub proof fn law_a_voter_is_added(s: NodeModel, id: NodeId)
    requires
        s.wf(),
        s.log.last_index() + 1 < u64::MAX,
        nothing_ripe(s),
    ensures
        !takes_changes(s) ==> s.step(EventModel::AddServer(id)) == StepModel::Refused(
            turned_down(s),
        ),
        takes_changes(s) && s.members.contains(id) ==> s.step(EventModel::AddServer(id))
            == StepModel::Moved(s, Seq::empty()),
        takes_changes(s) && !s.members.contains(id) ==> (s.step(
            EventModel::AddServer(id),
        ) matches StepModel::Moved(t, out) && changed_voters(s, t, out) && t.members.len()
            == s.members.len() + 1 && forall|m: NodeId| #[trigger]
            t.members.contains(m) <==> s.members.contains(m) || m == id),
{
    lemma_change_pending(s);
    if takes_changes(s) && !s.members.contains(id) {
        crate::members::lemma_insert_id(s.members, id);
        lemma_changed_voters(
            s,
            EventModel::AddServer(id),
            crate::members::insert_id(s.members, id),
        );
    }
}

/// Removing a node from the voters: the voters are then exactly the others there were, by
/// a configuration at the end of the log, which takes effect at once. One that does not
/// vote changes nothing, nor does the last voter, and a node that cannot take the request
/// turns it down.
pub proof fn law_a_voter_is_removed(s: NodeModel, id: NodeId)
    requires
        s.wf(),
        s.log.last_index() + 1 < u64::MAX,
        nothing_ripe(s),
    ensures
        !takes_changes(s) ==> s.step(EventModel::RemoveServer(id)) == StepModel::Refused(
            turned_down(s),
        ),
        takes_changes(s) && (!s.members.contains(id) || s.members == seq![id]) ==> s.step(
            EventModel::RemoveServer(id),
        ) == StepModel::Moved(s, Seq::empty()),
        takes_changes(s) && s.members.contains(id) && s.members != seq![id] ==> (s.step(
            EventModel::RemoveServer(id),
        ) matches StepModel::Moved(t, out) && changed_voters(s, t, out) && t.members.len()
            == s.members.len() - 1 && forall|m: NodeId| #[trigger]
            t.members.contains(m) <==> s.members.contains(m) && m != id),
{
    lemma_change_pending(s);
    if s.members.len() == 1 && s.members.contains(id) {
        assert(s.members[0] == id);
        assert(s.members =~= seq![id]);
    }
    if takes_changes(s) && s.members.contains(id) && s.members != seq![id] {
        crate::members::lemma_without(s.members, id);
        lemma_changed_voters(
            s,
            EventModel::RemoveServer(id),
            crate::members::without(s.members, id),
        );
    }
}

// ---- answers to a leader -------------------------------------------------

/// From `s`, a leader that has learnt that the voter at `slot` has its log through
/// `index` is in `t` and hands out `out`. Of that voter it knows the furthest it has
/// heard, of the others what it knew. If there is more for the voter it is told what
/// comes next, starting past what it has; if it is the target of a transfer and has the
/// whole log, it is told to take over; nobody else is told anything. A leader that keeps
/// its vote leads on.
pub open spec fn learnt(
    s: NodeModel,
    t: NodeModel,
    out: Seq<ActionModel>,
    slot: int,
    index: Index,
) -> bool {
    let p = s.progress[slot];
    let last = s.log.last_index();
    let matched = if index > p.matched {
        index
    } else {
        p.matched
    };
    let next = if p.next > matched {
        p.next as int
    } else {
        matched + 1
    };
    let lead = NodeModel { commit: t.commit, ..s };
    let signal = ActionModel::Send {
        to: p.peer,
        message: MessageModel::TimeoutNow(TimeoutNow { term: s.term, leader: s.cfg.id }),
    };
    &&& t.log == s.log
    &&& t.term == s.term
    &&& t.voted_for == s.voted_for
    &&& t.members == s.members
    &&& s.members.contains(s.cfg.id) ==> t.role == Role::Leader
    &&& forall|i: int| 0 <= i < out.len() && (#[trigger] out[i]) is Send ==> out[i]->to == p.peer
    &&& t.role == Role::Leader ==> {
        &&& t.leader == s.leader
        &&& t.transfer == s.transfer
        &&& t.progress.len() == s.progress.len()
        &&& t.progress[slot].peer == p.peer
        &&& t.progress[slot].matched == matched
        &&& t.progress[slot].streaming
        &&& forall|j: int|
            0 <= j < s.progress.len() && j != slot ==> #[trigger] t.progress[j] == s.progress[j]
        &&& out.contains(signal) <==> s.transfer == Some(p.peer) && matched == last
        &&& if next <= last {
            exists|i: int|
                {
                    &&& 0 <= i < out.len()
                    &&& (#[trigger] out[i]) is Send
                    &&& brings_forward(lead, next, out[i]->message)
                    &&& t.progress[slot].next == underway(
                        Progress { next: next as Index, streaming: true, ..p },
                        out[i]->message,
                    ).next
                    &&& forall|j: int|
                        0 <= j < out.len() && j != i && (#[trigger] out[j]) is Send ==> out[j]
                            == signal
                }
        } else {
            &&& t.progress[slot].next == next
            &&& forall|j: int|
                0 <= j < out.len() && (#[trigger] out[j]) is Send ==> out[j] == signal
        }
    }
}

/// Learning how far a voter has come does what it is for.
#[verifier::rlimit(40)]
proof fn lemma_learnt(s: NodeModel, slot: int, index: Index)
    requires
        s.wf(),
        s.role == Role::Leader,
        0 <= slot < s.progress.len(),
        index <= s.log.last_index(),
    ensures
        learnt(s, s.acknowledged(slot, index).0, s.acknowledged(slot, index).1, slot, index),
{
    let p = s.progress[slot];
    let last = s.log.last_index();
    let known = p.agreeing(index);
    let mid = s.knowing(slot, known);
    let (next, done) = mid.committed();
    let (t, out) = s.acknowledged(slot, index);
    crate::upkeep::lemma_progress_update(s, slot, known);
    crate::upkeep::lemma_committed(mid);
    lemma_commits_send_nothing(mid);
    let signal = ActionModel::Send {
        to: p.peer,
        message: MessageModel::TimeoutNow(TimeoutNow { term: s.term, leader: s.cfg.id }),
    };
    assert forall|x: ActionModel| #[trigger] done.contains(x) implies !(x is Send) by {
        let k = choose|k: int| 0 <= k < done.len() && done[k] == x;
    }
    if next.role == Role::Leader {
        assert(next.progress[slot] == known);
        if known.next <= last {
            let message = next.outgoing(known);
            lemma_brings_forward(next, known);
            let lead = NodeModel { commit: t.commit, ..s };
            assert(brings_forward(lead, known.next as int, message));
            let (sent, said) = next.sent_to(slot);
            let sign = sent.handover(slot);
            assert(out == done + said + sign);
            let i = done.len() as int;
            assert(out[i] == said[0]);
            assert forall|j: int| 0 <= j < out.len() implies #[trigger] out[j] == (if j < i {
                done[j]
            } else if j == i {
                said[0]
            } else {
                sign[j - i - 1]
            }) by {}
            if s.transfer == Some(p.peer) && known.matched == last {
                assert(out[i + 1] == signal);
            }
        } else {
            let sign = next.handover(slot);
            assert(out == done + sign);
            assert forall|j: int| 0 <= j < out.len() implies #[trigger] out[j] == (if j
                < done.len() {
                done[j]
            } else {
                sign[j - done.len()]
            }) by {}
            if s.transfer == Some(p.peer) && known.matched == last {
                assert(out[done.len() as int] == signal);
            }
        }
    }
}

/// A voter's word of success to the leader of its term, on an append or on a snapshot,
/// counts as far as the leader's log reaches. One that claims more changes nothing.
pub proof fn law_an_acknowledgement_is_counted(
    s: NodeModel,
    m: AppendEntriesReply,
    x: InstallSnapshotReply,
    slot: int,
)
    requires
        s.wf(),
        s.role == Role::Leader,
    ensures
        m.success && m.term == s.term && known_at(s, m.from, slot) ==> (s.step(
            EventModel::Message(MessageModel::AppendEntriesReply(m)),
        ) matches StepModel::Moved(t, out) && if m.match_index <= s.log.last_index() {
            learnt(s, t, out, slot, m.match_index)
        } else {
            t == s && out.len() == 0
        }),
        x.term == s.term && known_at(s, x.from, slot) ==> (s.step(
            EventModel::Message(MessageModel::InstallSnapshotReply(x)),
        ) matches StepModel::Moved(t, out) && if x.last_index <= s.log.last_index() {
            learnt(s, t, out, slot, x.last_index)
        } else {
            t == s && out.len() == 0
        }),
{
    if known_at(s, m.from, slot) {
        lemma_tracked_once(s, m.from, slot);
        if m.match_index <= s.log.last_index() {
            lemma_learnt(s, slot, m.match_index);
        }
    }
    if known_at(s, x.from, slot) {
        lemma_tracked_once(s, x.from, slot);
        if x.last_index <= s.log.last_index() {
            lemma_learnt(s, slot, x.last_index);
        }
    }
}

/// An answer counts only for the leader of its term, and only from a voter. Any other
/// changes nothing but that a later term is entered.
pub proof fn law_answers_of_others_are_ignored(
    s: NodeModel,
    m: AppendEntriesReply,
    x: InstallSnapshotReply,
)
    requires
        s.wf(),
    ensures
        s.role != Role::Leader || m.term != s.term || !s.members.contains(m.from) || m.from
            == s.cfg.id ==> (s.step(
            EventModel::Message(MessageModel::AppendEntriesReply(m)),
        ) matches StepModel::Moved(t, out) && in_term(s, t, m.term) && out.len() == 0),
        s.role != Role::Leader || x.term != s.term || !s.members.contains(x.from) || x.from
            == s.cfg.id ==> (s.step(
            EventModel::Message(MessageModel::InstallSnapshotReply(x)),
        ) matches StepModel::Moved(t, out) && in_term(s, t, x.term) && out.len() == 0),
{
    if s.role == Role::Leader && (!s.members.contains(m.from) || m.from == s.cfg.id) {
        lemma_untracked(s, m.from);
    }
    if s.role == Role::Leader && (!s.members.contains(x.from) || x.from == s.cfg.id) {
        lemma_untracked(s, x.from);
    }
}

/// The leader's log has an entry of `term` at `index`, or ends its snapshot there, below
/// `next`.
pub open spec fn has_term_below(log: LogModel, term: Term, index: int, next: int) -> bool {
    1 <= index < next && log.base_index() <= index && log.term_at(index) == Some(term)
}

/// A rejection suggests to try from `hint` on: just past the last entry below `next` that
/// the leader has of the term in which the voter's log differs, if it has one of that
/// term, and else where the voter says.
pub open spec fn suggests(s: NodeModel, next: int, m: AppendEntriesReply, hint: int) -> bool {
    if m.conflict_term > 0 && exists|i: int| #[trigger]
        has_term_below(s.log, m.conflict_term, i, next) {
        has_term_below(s.log, m.conflict_term, hint - 1, next) && forall|i: int|
            hint <= i ==> !#[trigger] has_term_below(s.log, m.conflict_term, i, next)
    } else {
        hint == m.conflict_index
    }
}

/// The search finds the last entry of a term.
proof fn lemma_last_of_term(log: LogModel, term: Term, next: int)
    requires
        log.wf(),
        term > 0,
    ensures
        ({
            let found = log.last_of_term(term, next - 1);
            &&& found == 0 || has_term_below(log, term, found, next)
            &&& found >= 0
            &&& forall|i: int| found < i ==> !#[trigger] has_term_below(log, term, i, next)
        }),
    decreases next,
{
    let index = next - 1;
    if index > 0 && index >= log.base_index() && log.term_at(index) != Some(term) {
        lemma_last_of_term(log, term, index);
        let found = log.last_of_term(term, index - 1);
        assert(log.last_of_term(term, index) == found);
        assert forall|i: int| found < i implies !#[trigger] has_term_below(log, term, i, next) by {
            assert(!has_term_below(log, term, i, index));
        }
        assert(found == 0 || has_term_below(log, term, found, index));
    }
}

/// What a rejection suggests is what the leader goes by.
proof fn lemma_suggests(s: NodeModel, next: int, m: AppendEntriesReply)
    requires
        s.log.wf(),
    ensures
        ({
            let own = if m.conflict_term > 0 {
                s.log.last_of_term(m.conflict_term, next - 1)
            } else {
                0
            };
            suggests(
                s,
                next,
                m,
                if own > 0 {
                    own + 1
                } else {
                    m.conflict_index as int
                },
            )
        }),
{
    if m.conflict_term > 0 {
        lemma_last_of_term(s.log, m.conflict_term, next);
        let own = s.log.last_of_term(m.conflict_term, next - 1);
        if own > 0 {
            assert(has_term_below(s.log, m.conflict_term, own, next));
            assert(own + 1 - 1 == own);
            assert(has_term_below(s.log, m.conflict_term, own + 1 - 1, next));
        } else {
            assert forall|i: int| !#[trigger] has_term_below(
                s.log,
                m.conflict_term,
                i,
                next,
            ) by {}
        }
    }
}

/// A rejection has the leader try again from further back: from where it suggests, if
/// that is further back than before but past what the voter is known to have, and
/// otherwise from as near to that as this allows. A voter that says it is ahead is taken
/// at its word as far as the leader's log reaches. It is told at once what comes next
/// from there, and no further batch goes out before it agrees.
pub proof fn law_a_rejection_is_tried_again_from_further_back(
    s: NodeModel,
    m: AppendEntriesReply,
    slot: int,
)
    requires
        s.wf(),
        s.role == Role::Leader,
        !m.success,
        m.term == s.term,
        known_at(s, m.from, slot),
    ensures
        s.step(EventModel::Message(MessageModel::AppendEntriesReply(m))) matches StepModel::Moved(
            t,
            out,
        ) && {
            let p = s.progress[slot];
            let q = t.progress[slot];
            let most = if p.next - 1 > p.matched + 1 {
                p.next - 1
            } else {
                p.matched + 1
            };
            &&& t == (NodeModel { progress: s.progress.update(slot, q), ..s })
            &&& q == (Progress { next: q.next, streaming: false, ..p })
            &&& out.len() == 1
            &&& out[0] matches ActionModel::Send { to, message }
            &&& to == m.from
            &&& brings_forward(s, q.next as int, message)
            &&& exists|hint: int|
                {
                    &&& #[trigger] suggests(s, p.next as int, m, hint)
                    &&& q.next == (if p.next < hint <= s.log.last_index() + 1 {
                        hint
                    } else if hint <= p.matched {
                        p.matched + 1
                    } else if hint > most {
                        most
                    } else {
                        hint
                    })
                }
        },
{
    lemma_tracked_once(s, m.from, slot);
    let p = s.progress[slot];
    assert(p.peer == s.others()[slot]);
    crate::upkeep::lemma_backed_off(s, p, m);
    let back = Progress { next: s.backed_off(p, m) as Index, streaming: false, ..p };
    let mid = s.knowing(slot, back);
    assert(mid.progress[slot] == back);
    lemma_brings_forward(mid, back);
    let (t, out) = mid.sent_to(slot);
    assert(t.progress =~= s.progress.update(slot, back));
    assert(brings_forward(s, back.next as int, mid.outgoing(back)));
    let own = if m.conflict_term > 0 {
        s.log.last_of_term(m.conflict_term, p.next - 1)
    } else {
        0
    };
    let hint = if own > 0 {
        own + 1
    } else {
        m.conflict_index as int
    };
    lemma_suggests(s, p.next as int, m);
    assert(suggests(s, p.next as int, m, hint));
}

// ---- a follower's log ----------------------------------------------------

/// The batch carries on from `prev` without a gap, within the range of an index.
pub open spec fn carries_on(prev: Index, entries: Seq<EntryModel>) -> bool {
    &&& forall|i: int| 0 <= i < entries.len() ==> (#[trigger] entries[i]).index == prev + 1 + i
    &&& prev + entries.len() < u64::MAX
}

/// The log has at `e`'s index an entry of another term, or none, where it is not
/// compacted.
pub open spec fn is_news(log: LogModel, e: EntryModel) -> bool {
    log.base_index() < e.index && log.term_at(e.index as int) != Some(e.term)
}

/// The batch would have an entry replaced that is committed.
pub open spec fn contradicts(s: NodeModel, entries: Seq<EntryModel>) -> bool {
    exists|i: int|
        0 <= i < entries.len() && is_news(s.log, #[trigger] entries[i]) && entries[i].index
            <= s.commit
}

/// The log after a batch that starts after `prev` has been taken into `a`: if all of it
/// is there, the log is as it was; else everything from the first entry on that is news
/// is the batch's, and everything before it as it was.
pub open spec fn took(a: LogModel, b: LogModel, prev: Index, entries: Seq<EntryModel>) -> bool {
    &&& b.snapshot == a.snapshot
    &&& (forall|i: int| 0 <= i < entries.len() ==> !is_news(a, #[trigger] entries[i]))
        ==> b.entries == a.entries
    &&& forall|k: int|
        0 <= k < entries.len() && is_news(a, #[trigger] entries[k]) && (forall|i: int|
            0 <= i < k ==> !is_news(a, #[trigger] entries[i])) ==> {
            &&& b.last_index() == prev + entries.len()
            &&& forall|i: int|
                k <= i < entries.len() ==> b.entry(prev + 1 + i) == Some(#[trigger] entries[i])
            &&& forall|i: int| i < prev + 1 + k ==> #[trigger] b.entry(i) == a.entry(i)
        }
}

/// The first of a batch that is news is the first that the log does not hold.
proof fn lemma_first_news(log: LogModel, prev: Index, entries: Seq<EntryModel>)
    requires
        log.wf(),
        log.last_index() < u64::MAX,
        carries_on(prev, entries),
        prev <= log.last_index(),
    ensures
        ({
            let fresh = log.uncovered(prev as int, entries);
            let skip = entries.len() - fresh.len();
            let k = crate::model::first_new(log, fresh, 0);
            &&& 0 <= skip
            &&& 0 <= k <= fresh.len()
            &&& forall|i: int| 0 <= i < skip + k ==> !is_news(log, #[trigger] entries[i])
            &&& k < fresh.len() ==> is_news(log, entries[skip + k]) && fresh[k] == entries[skip + k]
            &&& forall|i: int| 0 <= i < fresh.len() ==> #[trigger] fresh[i] == entries[skip + i]
        }),
{
    let fresh = log.uncovered(prev as int, entries);
    let skip = crate::log::clamp(log.base_index() - prev, 0, entries.len() as int);
    let k = crate::model::first_new(log, fresh, 0);
    crate::upkeep::lemma_first_new(log, fresh, 0);
    assert forall|i: int| 0 <= i < skip + k implies !is_news(log, #[trigger] entries[i]) by {
        if i >= skip {
            assert(fresh[i - skip] == entries[i]);
        }
    }
    if k < fresh.len() {
        assert(fresh[k] == entries[skip + k]);
    }
}

/// Merging a batch takes it into the log.
proof fn lemma_took(log: LogModel, prev: Index, entries: Seq<EntryModel>)
    requires
        log.wf(),
        log.last_index() < u64::MAX,
        carries_on(prev, entries),
        prev <= log.last_index(),
    ensures
        took(log, log.merge(log.uncovered(prev as int, entries)), prev, entries),
{
    let fresh = log.uncovered(prev as int, entries);
    let skip = entries.len() - fresh.len();
    let first = crate::model::first_new(log, fresh, 0);
    let b = log.merge(fresh);
    lemma_first_news(log, prev, entries);
    crate::upkeep::lemma_merge(log, prev as int, entries);
    assert forall|k: int|
        0 <= k < entries.len() && is_news(log, #[trigger] entries[k]) && (forall|i: int|
            0 <= i < k ==> !is_news(log, #[trigger] entries[i])) implies {
        &&& b.last_index() == prev + entries.len()
        &&& forall|i: int|
            k <= i < entries.len() ==> b.entry(prev + 1 + i) == Some(#[trigger] entries[i])
        &&& forall|i: int| i < prev + 1 + k ==> #[trigger] b.entry(i) == log.entry(i)
    } by {
        assert(k == skip + first);
        let cut = log.truncate(fresh[first].index as int);
        let tail = fresh.skip(first);
        assert(b == cut.append(tail));
        assert(cut.last_index() == fresh[first].index - 1);
        assert forall|i: int| k <= i < entries.len() implies b.entry(prev + 1 + i) == Some(
            #[trigger] entries[i],
        ) by {
            assert(tail[i - k] == fresh[i - skip]);
            assert(b.entries[cut.entries.len() + i - k] == tail[i - k]);
        }
    }
}

/// The answer to an append, in the term the node is then in.
pub open spec fn answered(
    t: NodeModel,
    to: NodeId,
    action: ActionModel,
    success: bool,
    match_index: int,
    conflict_index: int,
    conflict_term: Term,
) -> bool {
    action == (ActionModel::Send {
        to,
        message: MessageModel::AppendEntriesReply(
            AppendEntriesReply {
                term: t.term,
                success,
                from: t.cfg.id,
                match_index: match_index as Index,
                conflict_index: conflict_index as Index,
                conflict_term,
            },
        ),
    })
}

/// The node has recognised a leader of its term or a later one: it follows it, with its
/// timers fresh, its vote free if the term is new, and whatever it led or stood for gone.
pub open spec fn recognised(s: NodeModel, t: NodeModel, term: Term, leader: NodeId) -> bool {
    &&& t.role == Role::Follower
    &&& t.term == term
    &&& t.leader == Some(leader)
    &&& t.voted_for == (if term > s.term {
        None
    } else {
        s.voted_for
    })
    &&& t.log.hard == (HardState { term, voted_for: t.voted_for })
    &&& drew(s, t)
    &&& t.leader_elapsed == 0
    &&& t.votes.len() == 0
    &&& t.progress.len() == 0
    &&& t.transfer is None
    &&& t.cfg == s.cfg
}

/// First of the entries up to `index` that are all of the same term as the one there.
pub open spec fn starts_run(log: LogModel, index: int, start: int) -> bool {
    &&& start <= index
    &&& log.holds(start) || start == index
    &&& forall|i: int| start <= i <= index ==> #[trigger] log.term_at(i) == log.term_at(index)
    &&& !log.holds(start - 1) || log.term_at(start - 1) != log.term_at(index)
}

/// The start of a run is found.
proof fn lemma_run_start(log: LogModel, index: int)
    requires
        log.wf(),
        log.base_index() <= index <= log.last_index(),
        1 <= index,
    ensures
        starts_run(log, index, log.run_start(index)),
        log.base_index() <= log.run_start(index),
        1 <= log.run_start(index),
    decreases index,
{
    if log.holds(index) && log.holds(index - 1) && log.at(index - 1).term == log.at(index).term {
        lemma_run_start(log, index - 1);
        let start = log.run_start(index - 1);
        assert forall|i: int| start <= i <= index implies #[trigger] log.term_at(i) == log.term_at(
            index,
        ) by {
            if i < index {
                assert(log.term_at(i) == log.term_at(index - 1));
            }
        }
    }
}

/// What becomes of an append of an earlier term: nothing, and it is rejected.
/// One of the node's term or a later one has it follow the sender. It is accepted exactly
/// if the log has the entry before the batch, the batch carries on from there and
/// contradicts nothing committed: then the batch is taken into the log, the leader's
/// commit index is followed as far as the batch reaches, what is committed is applied,
/// and the answer says how far the logs agree. Otherwise the log and the commit index
/// stay, and the answer says where to try: past the end of a log that is too short, past
/// what is committed where the log is compacted, and for an entry that differs at the
/// first one of its term.
#[verifier::rlimit(60)]
pub proof fn law_what_becomes_of_an_append(s: NodeModel, m: AppendModel)
    requires
        s.wf(),
    ensures
        s.step(EventModel::Message(MessageModel::AppendEntries(m))) matches StepModel::Moved(t, out)
            && {
            let prev = m.prev_log_index as int;
            let last = s.log.last_index();
            let agreed = prev + m.entries.len();
            let has_prev = prev == 0 || s.log.term_at(prev) == Some(m.prev_log_term);
            &&& out.len() > 0
            &&& forall|i: int| 0 <= i < out.len() - 1 ==> !(#[trigger] out[i] is Send)
            &&& if m.term < s.term {
                t == s && out.len() == 1 && answered(s, m.leader, out[0], false, 0, 0, 0)
            } else if has_prev && carries_on(m.prev_log_index, m.entries) && !contradicts(
                s,
                m.entries,
            ) {
                &&& recognised(s, t, m.term, m.leader)
                &&& took(s.log, t.log, m.prev_log_index, m.entries)
                &&& t.commit == (if m.leader_commit <= s.commit || agreed <= s.commit {
                    s.commit as int
                } else if m.leader_commit <= agreed {
                    m.leader_commit as int
                } else {
                    agreed
                })
                &&& t.applied == t.commit
                &&& answered(t, m.leader, out.last(), true, agreed, 0, 0)
            } else {
                &&& recognised(s, t, m.term, m.leader)
                &&& t.log.entries == s.log.entries
                &&& t.log.snapshot == s.log.snapshot
                &&& t.members == s.members
                &&& t.commit == s.commit
                &&& t.applied == s.applied
                &&& out.len() == 1
                &&& if prev > last {
                    answered(t, m.leader, out[0], false, 0, last + 1, 0)
                } else if prev < s.log.base_index() || has_prev {
                    answered(t, m.leader, out[0], false, 0, s.commit + 1, 0)
                } else {
                    exists|start: int| #[trigger]
                        starts_run(s.log, prev, start) && answered(
                            t,
                            m.leader,
                            out[0],
                            false,
                            0,
                            start,
                            s.log.term_at(prev)->0,
                        )
                }
            }
        },
{
    let prev = m.prev_log_index as int;
    let mid = s.seen(m.term);
    let (t, out) = s.on_message(MessageModel::AppendEntries(m));
    crate::upkeep::lemma_seen(s, m.term);
    crate::rng::law_draw_is_in_range(
        s.rng,
        s.cfg.election_timeout_min,
        s.cfg.election_timeout_max,
    );
    if m.term >= s.term {
        let here = mid.recognising(m.leader);
        crate::upkeep::lemma_recognising(mid, m.leader);
        assert forall|i: int| #[trigger] here.log.term_at(i) == s.log.term_at(i) by {
            assert(here.log.entries == s.log.entries);
            assert(here.log.snapshot == s.log.snapshot);
        }
        assert(here.log.last_index() == s.log.last_index());
        assert(here.log.base_index() == s.log.base_index());
        let fresh = here.log.uncovered(prev, m.entries);
        assert(carries_on(m.prev_log_index, m.entries) <==> crate::model::follows(prev, m.entries));
        if prev <= s.log.last_index() && here.log.agrees_at(prev, m.prev_log_term) {
            if carries_on(m.prev_log_index, m.entries) {
                lemma_first_news(here.log, m.prev_log_index, m.entries);
                let k = crate::model::first_new(here.log, fresh, 0);
                let skip = m.entries.len() - fresh.len();
                assert(here.undoes_commit(fresh) <==> contradicts(s, m.entries)) by {
                    if here.undoes_commit(fresh) {
                        assert(is_news(s.log, m.entries[skip + k]));
                    }
                    if contradicts(s, m.entries) {
                        let i = choose|i: int|
                            0 <= i < m.entries.len() && is_news(s.log, #[trigger] m.entries[i])
                                && m.entries[i].index <= s.commit;
                        assert(is_news(here.log, m.entries[i]));
                        assert(i >= skip + k);
                        assert(fresh[k] == m.entries[skip + k]);
                    }
                }
                if !here.undoes_commit(fresh) {
                    lemma_append_taken(s, m);
                }
            }
        } else if prev <= s.log.last_index() && prev >= s.log.base_index() {
            lemma_run_start(s.log, prev);
            lemma_run_start_alike(here.log, s.log, prev);
            assert(starts_run(s.log, prev, s.log.run_start(prev)));
        }
    }
}

/// The start of a run depends on the entries alone.
proof fn lemma_run_start_alike(a: LogModel, b: LogModel, index: int)
    requires
        a.entries == b.entries,
        a.snapshot == b.snapshot,
    ensures
        a.run_start(index) == b.run_start(index),
    decreases index,
{
    if index >= 1 && a.holds(index) && a.holds(index - 1) {
        lemma_run_start_alike(a, b, index - 1);
    }
}

/// A batch that is accepted is taken.
proof fn lemma_append_taken(s: NodeModel, m: AppendModel)
    requires
        s.wf(),
        m.term >= s.term,
        m.prev_log_index <= s.log.last_index(),
        carries_on(m.prev_log_index, m.entries),
        ({
            let here = s.seen(m.term).recognising(m.leader);
            let fresh = here.log.uncovered(m.prev_log_index as int, m.entries);
            here.log.agrees_at(m.prev_log_index as int, m.prev_log_term) && !here.undoes_commit(
                fresh,
            )
        }),
    ensures
        ({
            let (t, out) = s.on_message(MessageModel::AppendEntries(m));
            let agreed = m.prev_log_index + m.entries.len();
            &&& out.len() > 0
            &&& forall|i: int| 0 <= i < out.len() - 1 ==> !(#[trigger] out[i] is Send)
            &&& recognised(s, t, m.term, m.leader)
            &&& took(s.log, t.log, m.prev_log_index, m.entries)
            &&& t.commit == (if m.leader_commit <= s.commit || agreed <= s.commit {
                s.commit as int
            } else if m.leader_commit <= agreed {
                m.leader_commit as int
            } else {
                agreed
            })
            &&& t.applied == t.commit
            &&& answered(t, m.leader, out.last(), true, agreed, 0, 0)
        }),
{
    let prev = m.prev_log_index as int;
    let mid = s.seen(m.term);
    let here = mid.recognising(m.leader);
    crate::upkeep::lemma_seen(s, m.term);
    crate::upkeep::lemma_recognising(mid, m.leader);
    crate::rng::law_draw_is_in_range(
        s.rng,
        s.cfg.election_timeout_min,
        s.cfg.election_timeout_max,
    );
    let fresh = here.log.uncovered(prev, m.entries);
    let agreed = prev + m.entries.len();
    let (t, out) = s.on_message(MessageModel::AppendEntries(m));
    crate::upkeep::lemma_merge(here.log, prev, m.entries);
    let raw = NodeModel { log: here.log.merge(fresh), ..here };
    let (merged, news) = raw.reconfigured();
    let ready = merged.raised(m.leader_commit, agreed);
    let (next, done) = ready.drained();
    crate::laws::lemma_run_applies_well(ready.log, ready.applied as int, ready.commit as int);
    assert(crate::model::follows(prev, m.entries));
    assert(t == next);
    let reply = next.append_reply(m.leader, true, agreed, 0, 0);
    assert(out == news + done + reply);
    assert(out.last() == reply[0]);
    assert forall|i: int| 0 <= i < out.len() - 1 implies !(#[trigger] out[i] is Send) by {
        if i < news.len() {
            assert(out[i] == news[i]);
        } else {
            assert(out[i] == done[i - news.len()]);
        }
    }
    lemma_took(here.log, m.prev_log_index, m.entries);
    assert forall|e: EntryModel| #[trigger] is_news(here.log, e) == is_news(s.log, e) by {}
    assert forall|i: int| #[trigger] here.log.entry(i) == s.log.entry(i) by {}
}

// ---- what the application is told ----------------------------------------

/// Among `out` there is a request for a snapshot exactly if one is `due`. It is for what
/// is applied in `t`, comes once, and after every command. There is news of the voters
/// exactly if they have `changed`; it is of those in `t`, comes once, and before any
/// command.
pub open spec fn tells(t: NodeModel, out: Seq<ActionModel>, due: bool, changed: bool) -> bool {
    &&& due ==> exists|i: int| 0 <= i < out.len() && #[trigger] out[i] is Snapshot
    &&& forall|i: int|
        0 <= i < out.len() ==> (#[trigger] out[i] matches ActionModel::Snapshot { index, term }
            ==> due && index == t.applied && t.log.term_at(t.applied as int) == Some(term))
    &&& forall|i: int, j: int|
        0 <= i < j < out.len() && #[trigger] out[i] is Snapshot ==> !(
        #[trigger] out[j] is Snapshot) && !(out[j] is Apply)
    &&& changed ==> exists|i: int| 0 <= i < out.len() && #[trigger] out[i] is MembershipChanged
    &&& forall|i: int|
        0 <= i < out.len() ==> (#[trigger] out[i] matches ActionModel::MembershipChanged { members }
            ==> changed && members == t.members)
    &&& forall|i: int, j: int|
        0 <= i < j < out.len() && #[trigger] out[j] is MembershipChanged ==> !(
        #[trigger] out[i] is MembershipChanged) && !(out[i] is Apply) && !(out[i] is Snapshot)
}

/// Neither a request for a snapshot nor news of the voters nor a command.
pub open spec fn tells_nothing(out: Seq<ActionModel>) -> bool {
    forall|i: int|
        0 <= i < out.len() ==> !(#[trigger] out[i] is Snapshot) && !(out[i] is MembershipChanged)
            && !(out[i] is Apply)
}

/// What tells nothing may stand before and after.
proof fn lemma_tells_between(
    t: NodeModel,
    a: Seq<ActionModel>,
    b: Seq<ActionModel>,
    c: Seq<ActionModel>,
    due: bool,
    changed: bool,
)
    requires
        tells_nothing(a),
        tells(t, b, due, changed),
        tells_nothing(c),
    ensures
        tells(t, a + b + c, due, changed),
{
    let all = a + b + c;
    assert forall|i: int| 0 <= i < all.len() implies #[trigger] all[i] == (if i < a.len() {
        a[i]
    } else if i < a.len() + b.len() {
        b[i - a.len()]
    } else {
        c[i - a.len() - b.len()]
    }) by {}
    if due {
        let k = choose|k: int| 0 <= k < b.len() && #[trigger] b[k] is Snapshot;
        assert(all[a.len() + k] is Snapshot);
    }
    if changed {
        let k = choose|k: int| 0 <= k < b.len() && #[trigger] b[k] is MembershipChanged;
        assert(all[a.len() + k] is MembershipChanged);
    }
}

/// News of the voters may stand before.
proof fn lemma_tells_news(t: NodeModel, b: Seq<ActionModel>, due: bool)
    requires
        tells(t, b, due, false),
    ensures
        tells(t, seq![ActionModel::MembershipChanged { members: t.members }] + b, due, true),
{
    let news = seq![ActionModel::MembershipChanged { members: t.members }];
    let all = news + b;
    assert forall|i: int| 0 <= i < all.len() implies #[trigger] all[i] == (if i < 1 {
        news[0]
    } else {
        b[i - 1]
    }) by {}
    assert(all[0] is MembershipChanged);
    if due {
        let k = choose|k: int| 0 <= k < b.len() && #[trigger] b[k] is Snapshot;
        assert(all[1 + k] is Snapshot);
    }
}

/// A snapshot is due once entries have newly been applied, and those applied past the
/// last snapshot are as many as configured. A count of zero asks for none.
pub open spec fn snapshot_due(s: NodeModel, t: NodeModel) -> bool {
    &&& t.applied > s.applied
    &&& s.cfg.snapshot_threshold > 0
    &&& t.applied - t.log.base_index() >= s.cfg.snapshot_threshold
}

/// Handing out what is committed tells what it should.
proof fn lemma_drained_tells(s: NodeModel)
    requires
        s.wf(),
    ensures
        tells(s.drained().0, s.drained().1, snapshot_due(s, s.drained().0), false),
{
    let (t, out) = s.drained();
    let done = crate::model::applies(s.log.between(s.applied + 1, s.commit as int));
    crate::laws::lemma_run_applies_well(s.log, s.applied as int, s.commit as int);
    if snapshot_due(s, t) {
        assert(out[done.len() as int] is Snapshot);
    }
}

/// Committing tells what it should.
proof fn lemma_committed_tells(s: NodeModel)
    requires
        s.wf(),
        s.applied == s.commit,
    ensures
        tells(s.committed().0, s.committed().1, snapshot_due(s, s.committed().0), false),
        s.committed().0.members == s.members,
{
    let target = s.commit_target(s.log.last_index());
    crate::upkeep::lemma_commit_target(s, s.log.last_index());
    if target > s.commit {
        let mid = NodeModel { commit: target as Index, ..s };
        assert(mid.wf());
        lemma_drained_tells(mid);
        let next = mid.drained().0;
        assert(tells(s.committed().0, s.committed().1, snapshot_due(s, next), false));
    }
}

/// Broadcasting and committing tells what it should.
proof fn lemma_broadcast_tells(s: NodeModel)
    requires
        s.wf(),
        s.applied == s.commit,
    ensures
        ({
            let (t, out) = s.broadcast_and_committed();
            tells(t, out, snapshot_due(s, t), false) && t.members == s.members
        }),
{
    let (sent, out) = s.broadcast();
    let (t, more) = sent.committed();
    crate::upkeep::lemma_broadcast(s);
    lemma_committed_tells(sent);
    let none = Seq::<ActionModel>::empty();
    lemma_tells_between(t, out, more, none, snapshot_due(sent, t), false);
    assert(out + more + none =~= out + more);
}

/// An election tells what it should.
proof fn lemma_election_tells(s: NodeModel, force: bool)
    requires
        s.wf(),
        s.applied == s.commit,
        s.term < u64::MAX,
        s.is_voter(),
    ensures
        ({
            let (t, out) = s.election(force);
            tells(t, out, snapshot_due(s, t), false) && t.members == s.members
        }),
{
    let mid = s.campaigning();
    crate::upkeep::lemma_campaigning(s);
    if 1 >= mid.quorum() {
        crate::upkeep::lemma_leading(mid);
        lemma_broadcast_tells(mid.leading());
    }
}

/// An acknowledgement tells what it should.
proof fn lemma_acknowledged_tells(s: NodeModel, slot: int, index: Index)
    requires
        s.wf(),
        s.applied == s.commit,
        s.role == Role::Leader,
        0 <= slot < s.progress.len(),
    ensures
        ({
            let (t, out) = s.acknowledged(slot, index);
            tells(t, out, snapshot_due(s, t), false) && t.members == s.members
        }),
{
    if index <= s.log.last_index() {
        let known = s.progress[slot].agreeing(index);
        let mid = s.knowing(slot, known);
        crate::upkeep::lemma_progress_update(s, slot, known);
        crate::upkeep::lemma_committed(mid);
        lemma_committed_tells(mid);
        let (next, done) = mid.committed();
        let (t, out) = s.acknowledged(slot, index);
        let none = Seq::<ActionModel>::empty();
        if next.role == Role::Leader {
            let rest = if known.next <= next.log.last_index() {
                let (sent, said) = next.sent_to(slot);
                said + sent.handover(slot)
            } else {
                next.handover(slot)
            };
            assert(tells(t, done, snapshot_due(s, t), false));
            lemma_tells_between(t, none, done, rest, snapshot_due(s, t), false);
            assert(none + done + rest =~= out);
        }
    }
}

/// A change of the voters tells what it should.
proof fn lemma_change_tells(s: NodeModel, ids: Seq<NodeId>)
    requires
        s.wf(),
        s.applied == s.commit,
        s.role == Role::Leader,
        s.transfer is None,
        s.log.last_index() + 1 < u64::MAX,
        crate::members::ascending(ids),
        ids.len() > 0,
    ensures
        ({
            let (t, out) = s.on_change(ids);
            tells(t, out, snapshot_due(s, t), true) && t.members == ids
        }),
{
    let mid = s.changed(ids);
    crate::upkeep::lemma_changed(s, ids);
    lemma_broadcast_tells(mid);
    let (t, out) = mid.broadcast_and_committed();
    lemma_tells_news(t, out, snapshot_due(mid, t));
}

/// An append tells what it should.
proof fn lemma_append_tells(s: NodeModel, m: AppendModel)
    requires
        s.wf(),
        s.applied == s.commit,
        s.term >= m.term,
    ensures
        ({
            let (t, out) = s.on_append(m);
            tells(t, out, snapshot_due(s, t), t.members != s.members)
        }),
{
    let (t, out) = s.on_append(m);
    let here = s.recognising(m.leader);
    let prev = m.prev_log_index as int;
    let fresh = here.log.uncovered(prev, m.entries);
    crate::upkeep::lemma_recognising(s, m.leader);
    if m.term >= s.term && prev <= here.log.last_index() && here.log.agrees_at(
        prev,
        m.prev_log_term,
    ) && crate::model::follows(prev, m.entries) && !here.undoes_commit(fresh) {
        let agreed = prev + m.entries.len();
        crate::upkeep::lemma_merge(here.log, prev, m.entries);
        let raw = NodeModel { log: here.log.merge(fresh), ..here };
        crate::upkeep::lemma_reconfigured(raw);
        let (merged, news) = raw.reconfigured();
        let ready = merged.raised(m.leader_commit, agreed);
        assert(ready.wf());
        lemma_drained_tells(ready);
        let done = ready.drained().1;
        let reply = t.append_reply(m.leader, true, agreed, 0, 0);
        let none = Seq::<ActionModel>::empty();
        assert(out == news + done + reply);
        lemma_tells_between(t, none, done, reply, snapshot_due(s, t), false);
        assert(none + done + reply =~= done + reply);
        if t.members != s.members {
            lemma_tells_news(t, done + reply, snapshot_due(s, t));
            assert(news + (done + reply) =~= news + done + reply);
        } else {
            assert(news =~= none);
            assert(news + done + reply =~= done + reply);
        }
    }
}

/// Installing a snapshot tells what it should.
proof fn lemma_install_tells(s: NodeModel, m: InstallModel)
    requires
        s.wf(),
        s.term >= m.term,
    ensures
        ({
            let (t, out) = s.on_install(m);
            tells(t, out, false, t.members != s.members)
        }),
{
    let (t, out) = s.on_install(m);
    if m.term >= s.term && s.commit < m.snapshot.index < u64::MAX {
        if t.members != s.members {
            assert(out[1] is MembershipChanged);
        }
    }
}

/// A message tells what it should.
proof fn lemma_message_tells(s: NodeModel, m: MessageModel)
    requires
        s.wf(),
        s.applied == s.commit,
        s.has_room_for(EventModel::Message(m)),
    ensures
        ({
            let (t, out) = s.on_message(m);
            tells(
                t,
                out,
                snapshot_due(s, t) && !(m is InstallSnapshot),
                t.members != s.members,
            )
        }),
{
    let mid = s.seen(m.term());
    crate::upkeep::lemma_seen(s, m.term());
    match m {
        MessageModel::RequestVoteReply(x) => {
            if mid.role == Role::Candidate && x.term == mid.term && x.vote_granted
                && mid.members.contains(x.from) && !mid.votes.contains(x.from) {
                let counted = mid.counting(x.from);
                assert(counted.wf());
                crate::upkeep::lemma_leading(counted);
                lemma_broadcast_tells(counted.leading());
            }
        },
        MessageModel::AppendEntries(x) => lemma_append_tells(mid, x),
        MessageModel::AppendEntriesReply(x) => {
            let slot = crate::model::slot_of(mid.progress, x.from);
            crate::upkeep::lemma_slot_of(mid.progress, x.from);
            if mid.role == Role::Leader && x.term == mid.term && slot < mid.progress.len()
                && x.success {
                lemma_acknowledged_tells(mid, slot, x.match_index);
            }
        },
        MessageModel::InstallSnapshot(x) => lemma_install_tells(mid, x),
        MessageModel::InstallSnapshotReply(x) => {
            let slot = crate::model::slot_of(mid.progress, x.from);
            crate::upkeep::lemma_slot_of(mid.progress, x.from);
            if mid.role == Role::Leader && x.term == mid.term && slot
                < mid.progress.len() {
                lemma_acknowledged_tells(mid, slot, x.last_index);
            }
        },
        MessageModel::TimeoutNow(x) => {
            if !(x.term < mid.term || mid.role == Role::Leader || !mid.is_voter()) {
                lemma_election_tells(mid, true);
            }
        },
        _ => {},
    }
}

/// A step that newly applies entries asks for a snapshot exactly if those applied past
/// the last one are as many as configured, however many came at once; it asks once, for
/// all that is applied, and after the last command. No other step asks for one. A node
/// whose state was replaced by a leader's snapshot has one already. A step tells of the
/// voters exactly if it changed them.
pub proof fn law_when_the_application_is_asked_and_told(s: NodeModel, event: EventModel)
    requires
        s.wf(),
        s.applied == s.commit,
        s.has_room_for(event),
    ensures
        s.step(event) matches StepModel::Moved(t, out) ==> tells(
            t,
            out,
            t.applied > s.applied && s.cfg.snapshot_threshold > 0 && t.applied
                - t.log.base_index() >= s.cfg.snapshot_threshold && !(event matches EventModel::Message(
                MessageModel::InstallSnapshot(_),
            )),
            t.members != s.members,
        ),
{
    match event {
        EventModel::Tick => {
            let mid = s.ticked();
            if s.role != Role::Leader && mid.election_due() {
                assert(mid.wf());
                lemma_election_tells(mid, false);
            }
        },
        EventModel::Message(m) => lemma_message_tells(s, m),
        EventModel::Propose(command) => {
            if s.refusal() is None {
                crate::upkeep::lemma_command_appended(s, command);
                lemma_broadcast_tells(s.appended(s.next_command(command)));
            }
        },
        EventModel::AddServer(id) => {
            if s.starts_change(event) {
                crate::members::lemma_insert_id(s.members, id);
                lemma_change_tells(s, crate::members::insert_id(s.members, id));
            }
        },
        EventModel::RemoveServer(id) => {
            if s.starts_change(event) {
                crate::members::lemma_without(s.members, id);
                lemma_change_tells(s, crate::members::without(s.members, id));
            }
        },
        _ => {},
    }
}

// ---- snapshots -----------------------------------------------------------

/// The application's state through an index that is applied, and past the last snapshot,
/// becomes the log's snapshot, with the term of the entry there; the entries it covers
/// go, the others stay, and nothing else changes. Of any other index nothing changes.
pub proof fn law_the_log_is_compacted_behind_a_snapshot(s: NodeModel, index: Index, data: Seq<u8>)
    requires
        s.wf(),
    ensures
        s.step(EventModel::Snapshot { index, data }) matches StepModel::Moved(t, out) && {
            &&& out.len() == 0
            &&& if s.log.base_index() < index <= s.applied {
                &&& t == (NodeModel { log: t.log, ..s })
                &&& t.log.hard == s.log.hard
                &&& t.log.snapshot matches Some(snapshot)
                &&& snapshot.index == index
                &&& s.log.term_at(index as int) == Some(snapshot.term)
                &&& snapshot.data == data
                &&& in_effect(s, index as int, snapshot.config)
                &&& t.log.last_index() == s.log.last_index()
                &&& forall|i: int|
                    #[trigger] t.log.entry(i) == (if i > index {
                        s.log.entry(i)
                    } else {
                        None
                    })
            } else {
                t == s
            }
        },
{
    if s.log.base_index() < index <= s.applied {
        lemma_in_effect(s, index as int);
    }
}

/// `ids` are the voters in effect after the entry at `index`, in ascending order: those
/// that the latest configuration up to there names, else those on record in the
/// snapshot, else the node itself and its peers.
pub open spec fn in_effect(s: NodeModel, index: int, ids: Seq<NodeId>) -> bool {
    &&& crate::members::ascending(ids)
    &&& forall|k: int|
        {
            &&& k <= index
            &&& #[trigger] s.log.holds(k)
            &&& names_voters(s.log.at(k))
            &&& forall|i: int|
                k < i <= index && #[trigger] s.log.holds(i) ==> !names_voters(s.log.at(i))
        } ==> (s.log.at(k).members() matches Some(named) && forall|x: NodeId| #[trigger]
            ids.contains(x) <==> named.contains(x))
    &&& (forall|i: int|
        i <= index && #[trigger] s.log.holds(i) ==> !names_voters(s.log.at(i))) ==> match s.log.snapshot {
        Some(snapshot) if snapshot.config.len() > 0 => forall|x: NodeId| #[trigger]
            ids.contains(x) <==> snapshot.config.contains(x),
        _ => forall|x: NodeId| #[trigger]
            ids.contains(x) <==> x == s.cfg.id || s.cfg.peers.contains(x),
    }
}

/// The voters that the log names are those in effect.
proof fn lemma_in_effect(s: NodeModel, index: int)
    requires
        s.log.wf(),
        s.log.base_index() <= index <= s.log.last_index(),
    ensures
        in_effect(s, index, s.voters_at(index)),
{
    let base = s.log.base_index();
    let ids = s.voters_at(index);
    let upto = s.log.between(base + 1, index);
    let end = crate::model::config_end(upto);
    crate::upkeep::lemma_voters(s, index);
    crate::upkeep::lemma_between(s.log, base + 1, index);
    crate::upkeep::lemma_config_end(upto);
    assert forall|i: int| base + end < i <= index && #[trigger] s.log.holds(
        i,
    ) implies !names_voters(s.log.at(i)) by {
        assert(s.log.at(i) == upto[i - base - 1]);
        lemma_names_voters(s.log.at(i));
    }
    if end > 0 {
        let at = base + end;
        assert(s.log.at(at) == upto[end - 1]);
        assert(s.log.holds(at));
        lemma_names_voters(s.log.at(at));
        let named = s.log.at(at).members()->0;
        crate::members::lemma_sorted_ids(named);
        assert(ids == crate::members::sorted_ids(named));
        assert forall|k: int|
            {
                &&& k <= index
                &&& #[trigger] s.log.holds(k)
                &&& names_voters(s.log.at(k))
                &&& forall|i: int|
                    k < i <= index && #[trigger] s.log.holds(i) ==> !names_voters(s.log.at(i))
            } implies (s.log.at(k).members() matches Some(ours) && forall|x: NodeId| #[trigger]
            ids.contains(x) <==> ours.contains(x)) by {
            assert(k == at);
        }
    } else {
        match s.log.snapshot {
            Some(snapshot) => {
                if snapshot.config.len() > 0 {
                    crate::members::lemma_sorted_ids(snapshot.config);
                } else {
                    lemma_bootstrap(s.cfg);
                }
            },
            None => lemma_bootstrap(s.cfg),
        }
    }
}

/// A node starts out with itself and its peers.
proof fn lemma_bootstrap(cfg: ConfigModel)
    ensures
        forall|x: NodeId| #[trigger]
            NodeModel::bootstrap(cfg).contains(x) <==> x == cfg.id || cfg.peers.contains(x),
{
    let all = cfg.peers.push(cfg.id);
    crate::members::lemma_sorted_ids(all);
    assert forall|x: NodeId| #[trigger]
        NodeModel::bootstrap(cfg).contains(x) <==> x == cfg.id || cfg.peers.contains(x) by {
        assert(NodeModel::bootstrap(cfg).contains(x) <==> all.contains(x));
        assert(all[all.len() - 1] == cfg.id);
        if cfg.peers.contains(x) {
            let k = choose|k: int| 0 <= k < cfg.peers.len() && cfg.peers[k] == x;
            assert(all[k] == x);
        }
        if all.contains(x) {
            let k = choose|k: int| 0 <= k < all.len() && all[k] == x;
            if k < cfg.peers.len() {
                assert(cfg.peers[k] == x);
            }
        }
    }
}

/// A node's voters are those that its log names last, committed or not, before the ones
/// on record in its snapshot, before itself and its peers. That is so of a node that
/// starts out, over any log, and of what every step leads to.
pub proof fn law_the_latest_configuration_counts(
    cfg: ConfigModel,
    log: LogModel,
    s: NodeModel,
    event: EventModel,
)
    requires
        cfg.usable(),
        log.wf(),
        log.last_index() < u64::MAX,
        s.wf(),
        s.has_room_for(event),
    ensures
        ({
            let first = NodeModel::initial(cfg, log);
            in_effect(first, log.last_index(), first.members)
        }),
        in_effect(s, s.log.last_index(), s.members),
        s.step(event) matches StepModel::Moved(t, _) ==> in_effect(
            t,
            t.log.last_index(),
            t.members,
        ),
{
    let first = NodeModel::initial(cfg, log);
    crate::upkeep::lemma_initial(cfg, log);
    lemma_in_effect(first, log.last_index());
    lemma_in_effect(s, s.log.last_index());
    crate::upkeep::law_every_step_keeps_the_node_well_formed(s, event);
    if let StepModel::Moved(t, _) = s.step(event) {
        lemma_in_effect(t, t.log.last_index());
    }
}

/// A leader's snapshot of an earlier term is turned down. Any other has the node follow
/// its sender. One that reaches beyond what is committed replaces the state: the log is
/// compacted behind it, its entries past it staying only if the log has the snapshot's
/// last entry, everything through it counts as committed and applied, and the application
/// is told to restore it first of all. Otherwise nothing moves. The answer, which comes
/// last, says what is covered.
pub proof fn law_what_becomes_of_a_leaders_snapshot(s: NodeModel, m: InstallModel)
    requires
        s.wf(),
    ensures
        s.step(EventModel::Message(MessageModel::InstallSnapshot(m))) matches StepModel::Moved(
            t,
            out,
        ) && {
            let index = m.snapshot.index;
            let answer = |last: Index|
                ActionModel::Send {
                    to: m.leader,
                    message: MessageModel::InstallSnapshotReply(
                        InstallSnapshotReply { term: t.term, from: s.cfg.id, last_index: last },
                    ),
                };
            if m.term < s.term {
                t == s && out == seq![answer(0)]
            } else if s.commit < index < u64::MAX {
                &&& recognised(s, t, m.term, m.leader)
                &&& t.log.snapshot == Some(m.snapshot)
                &&& t.commit == index
                &&& t.applied == index
                &&& out.len() >= 2
                &&& out[0] == (ActionModel::RestoreSnapshot {
                    index,
                    term: m.snapshot.term,
                    data: m.snapshot.data,
                })
                &&& out.last() == answer(index)
                &&& forall|i: int|
                    0 < i < out.len() - 1 ==> #[trigger] out[i] is MembershipChanged
                &&& if s.log.holds(index as int) && s.log.term_at(index as int) == Some(
                    m.snapshot.term,
                ) {
                    t.log.last_index() == s.log.last_index() && forall|i: int|
                        i > index ==> #[trigger] t.log.entry(i) == s.log.entry(i)
                } else {
                    t.log.entries.len() == 0
                }
            } else {
                &&& recognised(s, t, m.term, m.leader)
                &&& t.log.entries == s.log.entries
                &&& t.log.snapshot == s.log.snapshot
                &&& t.members == s.members
                &&& t.commit == s.commit
                &&& t.applied == s.applied
                &&& out == seq![answer(s.commit)]
            }
        },
{
    let mid = s.seen(m.term);
    crate::upkeep::lemma_seen(s, m.term);
    crate::rng::law_draw_is_in_range(
        s.rng,
        s.cfg.election_timeout_min,
        s.cfg.election_timeout_max,
    );
    assert forall|i: int| #[trigger] mid.log.term_at(i) == s.log.term_at(i) by {
        assert(mid.log.entries == s.log.entries);
        assert(mid.log.snapshot == s.log.snapshot);
    }
    if m.term >= s.term && s.commit < m.snapshot.index < u64::MAX {
        let t = s.on_message(MessageModel::InstallSnapshot(m)).0;
        crate::upkeep::lemma_on_install(mid, m);
        assert forall|i: int|
            s.log.holds(m.snapshot.index as int) && s.log.term_at(m.snapshot.index as int) == Some(
                m.snapshot.term,
            ) && i > m.snapshot.index implies #[trigger] t.log.entry(i) == s.log.entry(i) by {}
    }
}

// ---- who leads -----------------------------------------------------------

/// A leader that no longer leads is in a later term, or was removed for good.
pub open spec fn released(s: NodeModel, t: NodeModel) -> bool {
    t.role != Role::Leader ==> t.term > s.term || (!t.is_voter() && !t.change_in_flight()
        && t.role == Role::Follower && t.leader is None)
}

/// A broadcast and commits release a leader only once it is removed for good.
proof fn lemma_broadcast_releases(s: NodeModel)
    requires
        s.wf(),
        s.role == Role::Leader,
    ensures
        released(s, s.broadcast_and_committed().0),
{
}

/// An acknowledgement releases a leader only once it is removed for good.
proof fn lemma_acknowledged_releases(s: NodeModel, slot: int, index: Index)
    requires
        s.wf(),
        s.role == Role::Leader,
    ensures
        released(s, s.acknowledged(slot, index).0),
{
}

/// A step releases a leader only for a later term, or once it is removed for good.
proof fn lemma_released(s: NodeModel, event: EventModel)
    requires
        s.wf(),
        s.has_room_for(event),
        s.role == Role::Leader,
        !(event matches EventModel::Message(MessageModel::AppendEntries(m)) && m.term == s.term),
        !(event matches EventModel::Message(MessageModel::InstallSnapshot(m)) && m.term == s.term),
    ensures
        s.step(event) matches StepModel::Moved(t, _) ==> released(s, t),
{
    match event {
        EventModel::Message(m) => {
            let mid = s.seen(m.term());
            crate::upkeep::lemma_seen(s, m.term());
            if m.term() > s.term {
                if m is RequestVote && !(m->RequestVote_0.force) {
                } else if m is PreVote || m is PreVoteReply {
                } else {
                    crate::laws::law_a_later_term_is_entered(s, m);
                }
            } else {
                match m {
                    MessageModel::AppendEntriesReply(x) => {
                        let slot = crate::model::slot_of(s.progress, x.from);
                        lemma_acknowledged_releases(s, slot, x.match_index);
                    },
                    MessageModel::InstallSnapshotReply(x) => {
                        let slot = crate::model::slot_of(s.progress, x.from);
                        lemma_acknowledged_releases(s, slot, x.last_index);
                    },
                    _ => {},
                }
            }
        },
        EventModel::Propose(command) => {
            if s.refusal() is None {
                crate::upkeep::lemma_command_appended(s, command);
                lemma_broadcast_releases(s.appended(s.next_command(command)));
            }
        },
        EventModel::AddServer(id) => {
            if s.starts_change(event) {
                crate::members::lemma_insert_id(s.members, id);
                crate::upkeep::lemma_changed(s, crate::members::insert_id(s.members, id));
                lemma_broadcast_releases(s.changed(crate::members::insert_id(s.members, id)));
            }
        },
        EventModel::RemoveServer(id) => {
            if s.starts_change(event) {
                crate::members::lemma_without(s.members, id);
                crate::upkeep::lemma_changed(s, crate::members::without(s.members, id));
                lemma_broadcast_releases(s.changed(crate::members::without(s.members, id)));
            }
        },
        _ => {},
    }
}

/// A leader stops leading for two reasons only: a later term, or a change that took its
/// vote and is now committed. And for the second it does: one that has no vote leads on
/// only while the change is pending.
pub proof fn law_when_a_leader_steps_down(s: NodeModel, event: EventModel)
    requires
        s.wf(),
        s.has_room_for(event),
        s.role == Role::Leader,
        s.members.contains(s.cfg.id) || change_pending(s),
        !(event matches EventModel::Message(MessageModel::AppendEntries(m)) && m.term == s.term),
        !(event matches EventModel::Message(MessageModel::InstallSnapshot(m)) && m.term == s.term),
    ensures
        s.step(event) matches StepModel::Moved(t, _) ==> {
            &&& t.role != Role::Leader ==> t.term > s.term || (!t.members.contains(s.cfg.id)
                && !change_pending(t))
            &&& t.role == Role::Leader ==> t.members.contains(s.cfg.id) || change_pending(t)
            &&& t.role != Role::Leader && t.term == s.term ==> t.role == Role::Follower
                && t.leader is None
        },
{
    lemma_change_pending(s);
    crate::upkeep::law_every_step_keeps_the_node_well_formed(s, event);
    crate::laws::law_settings_stay(s, event);
    crate::laws::law_only_voters_stand_and_removed_leaders_step_down(s, event);
    if let StepModel::Moved(t, _) = s.step(event) {
        lemma_change_pending(t);
        lemma_released(s, event);
    }
}

// ---- starting out and writing ----------------------------------------------

/// A node starts out, or comes back, as a follower that knows no leader, in the term and
/// with the vote that its log has on record. What its snapshot covers counts as committed
/// and applied, and nothing more. Its timer is fresh, drawn by its seed.
pub proof fn law_a_node_starts_as_its_log_says(cfg: ConfigModel, log: LogModel)
    requires
        cfg.usable(),
        log.wf(),
        log.last_index() < u64::MAX,
    ensures
        ({
            let t = NodeModel::initial(cfg, log);
            let covered = match log.snapshot {
                Some(snapshot) => snapshot.index,
                None => 0,
            };
            &&& t.wf()
            &&& t.cfg == cfg
            &&& t.log == log
            &&& t.role == Role::Follower
            &&& t.leader is None
            &&& t.term == log.hard.term
            &&& t.voted_for == log.hard.voted_for
            &&& t.commit == covered
            &&& t.applied == covered
            &&& t.votes.len() == 0
            &&& t.progress.len() == 0
            &&& t.transfer is None
            &&& t.election_elapsed == 0
            &&& t.leader_elapsed == 0
            &&& t.heartbeat_elapsed == 0
            &&& t.election_timeout == crate::rng::drawn(
                cfg.seed,
                cfg.election_timeout_min,
                cfg.election_timeout_max,
            )
            &&& t.rng == crate::rng::state_after_draw(
                cfg.seed,
                cfg.election_timeout_min,
                cfg.election_timeout_max,
            )
            &&& in_effect(t, log.last_index(), t.members)
            &&& nothing_ripe(t)
        }),
{
    crate::upkeep::lemma_initial(cfg, log);
    lemma_in_effect(NodeModel::initial(cfg, log), log.last_index());
}

/// A node writes to its log only to change what is there, but for one case: a vote that
/// is granted again is made sure of before it is announced again. And it writes whenever
/// a step changes what is there.
pub proof fn law_what_a_node_writes(s: NodeModel, event: EventModel)
    requires
        s.wf(),
        s.has_room_for(event),
    ensures
        s.step(event) matches StepModel::Moved(t, _) ==> {
            &&& t.log != s.log ==> s.writes_on(event)
            &&& s.writes_on(event) ==> t.log != s.log || (event matches EventModel::Message(
                MessageModel::RequestVote(m),
            ) && m.term == s.term && s.voted_for == Some(m.candidate))
        },
        s.step(event) is Refused ==> !s.writes_on(event),
{
    crate::laws::law_only_writes_change_the_log(s, event);
    if s.writes_on(event) {
        match event {
            EventModel::Tick => {
                let mid = s.ticked();
                assert(mid.wf());
                crate::upkeep::lemma_election(mid, false);
                lemma_stood(mid, false);
            },
            EventModel::Message(m) => lemma_message_writes(s, m),
            EventModel::Propose(command) => {
                crate::upkeep::lemma_command_appended(s, command);
                crate::upkeep::lemma_broadcast_and_committed(s.appended(s.next_command(command)));
            },
            EventModel::AddServer(id) => {
                let ids = crate::members::insert_id(s.members, id);
                crate::members::lemma_insert_id(s.members, id);
                crate::upkeep::lemma_changed(s, ids);
                crate::upkeep::lemma_broadcast_and_committed(s.changed(ids));
            },
            EventModel::RemoveServer(id) => {
                let ids = crate::members::without(s.members, id);
                crate::members::lemma_without(s.members, id);
                crate::upkeep::lemma_changed(s, ids);
                crate::upkeep::lemma_broadcast_and_committed(s.changed(ids));
            },
            _ => {},
        }
    }
}

/// A message that has the node write changes its log, or repeats a vote.
proof fn lemma_message_writes(s: NodeModel, m: MessageModel)
    requires
        s.wf(),
        s.has_room_for(EventModel::Message(m)),
        s.writes_on_message(m),
    ensures
        s.on_message(m).0.log != s.log || (m matches MessageModel::RequestVote(x) && x.term
            == s.term && s.voted_for == Some(x.candidate)),
{
    let mid = s.seen(m.term());
    let t = s.on_message(m).0;
    crate::upkeep::lemma_seen(s, m.term());
    if m.term() > s.term && !(m is PreVote || m is PreVoteReply) {
        crate::laws::law_a_later_term_is_entered(s, m);
        crate::upkeep::lemma_on_message(s, m);
        assert(t.log.hard.term > s.log.hard.term);
    } else {
        match m {
            MessageModel::AppendEntries(a) => {
                let here = s.recognising(a.leader);
                crate::upkeep::lemma_recognising(s, a.leader);
                let prev = a.prev_log_index as int;
                let fresh = here.log.uncovered(prev, a.entries);
                let k = crate::model::first_new(here.log, fresh, 0);
                crate::upkeep::lemma_first_new(here.log, fresh, 0);
                crate::upkeep::lemma_merge(here.log, prev, a.entries);
                let merged = here.log.merge(fresh);
                let at = fresh[k].index as int;
                assert(prev <= here.log.last_index());
                assert(merged.entries[at - merged.base_index() - 1] == fresh.skip(k)[0]);
                assert(merged.term_at(at) == Some(fresh[k].term));
                assert(t.log == merged);
            },
            MessageModel::TimeoutNow(x) => {
                lemma_stood(s, true);
            },
            _ => {},
        }
    }
}

} // verus!
