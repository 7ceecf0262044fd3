//! What every step of a node keeps.
//!
//! These are the promises of one node, whatever events it is given. What a whole
//! cluster promises is in [`guarantees`](crate::guarantees).

use crate::config::ConfigModel;
use crate::error::ErrorModel;
use crate::log::LogModel;
use crate::message::{
    AppendEntriesReply, AppendModel, InstallModel, MessageModel, PreVote, PreVoteReply, RequestVote,
};
use crate::model::{ActionModel, EventModel, NodeModel, Progress, StepModel};
use crate::types::{EntryKind, EntryModel, HardState, Index, NodeId, Role};
use vstd::prelude::*;

verus! {

// ---- going forward -------------------------------------------------------

/// Both logs have the same entry at every index up to `index` that both hold.
pub open spec fn same_through(a: LogModel, b: LogModel, index: int) -> bool {
    forall|i: int| i <= index && a.holds(i) && b.holds(i) ==> #[trigger] a.at(i) == b.at(i)
}

/// From `s` to `t` a node went forward: no term, vote, commit or application is
/// taken back, and nothing committed is replaced.
pub open spec fn onward(s: NodeModel, t: NodeModel) -> bool {
    &&& t.cfg == s.cfg
    &&& t.term >= s.term
    &&& t.term == s.term && s.voted_for is Some ==> t.voted_for == s.voted_for
    &&& t.commit >= s.commit
    &&& t.applied >= s.applied
    &&& t.log.base_index() >= s.log.base_index()
    &&& same_through(s.log, t.log, s.commit as int)
}

/// From `s` to `t` a log kept all it held, but for what was compacted.
pub open spec fn grew(s: LogModel, t: LogModel) -> bool {
    &&& t.last_index() >= s.last_index()
    &&& same_through(s, t, s.last_index())
}

/// Going forward is transitive.
proof fn lemma_onward_through(s: NodeModel, m: NodeModel, t: NodeModel)
    requires
        onward(s, m),
        onward(m, t),
        m.wf(),
    ensures
        onward(s, t),
{
    assert forall|i: int| i <= s.commit && s.log.holds(i) && t.log.holds(i) implies #[trigger] s.log.at(
        i,
    ) == t.log.at(i) by {
        assert(m.log.holds(i));
        assert(s.log.at(i) == m.log.at(i));
        assert(m.log.at(i) == t.log.at(i));
    }
}

/// A leader that broadcasts and commits goes forward.
proof fn lemma_broadcast_and_committed_onward(s: NodeModel)
    requires
        s.wf(),
    ensures
        onward(s, s.broadcast_and_committed().0),
        s.broadcast_and_committed().0.log == s.log,
        s.broadcast_and_committed().0.term == s.term,
        s.broadcast_and_committed().0.voted_for == s.voted_for,
{
    let sent = s.broadcast().0;
    crate::upkeep::lemma_broadcast(s);
    crate::upkeep::lemma_commit_target(sent, sent.log.last_index());
}

/// An election goes forward.
proof fn lemma_election_onward(s: NodeModel, force: bool)
    requires
        s.wf(),
        s.term < u64::MAX,
        s.is_voter(),
    ensures
        onward(s, s.election(force).0),
        s.election(force).0.term == s.term + 1,
{
    let mid = s.campaigning();
    crate::upkeep::lemma_campaigning(s);
    assert(onward(s, mid));
    if 1 >= mid.quorum() {
        let lead = mid.leading();
        crate::upkeep::lemma_leading(mid);
        assert(onward(mid, lead));
        lemma_broadcast_and_committed_onward(lead);
        lemma_onward_through(s, mid, lead);
        lemma_onward_through(s, lead, s.election(force).0);
    }
}

/// A tick goes forward.
proof fn lemma_tick_onward(s: NodeModel)
    requires
        s.wf(),
        s.has_room_for(EventModel::Tick),
    ensures
        onward(s, s.on_tick().0),
        s.role == Role::Leader ==> s.on_tick().0.log == s.log,
{
    if s.role != Role::Leader {
        let next = s.ticked();
        if next.election_due() {
            assert(next.wf());
            lemma_election_onward(next, false);
            lemma_onward_through(s, next, next.election(false).0);
        }
    }
}

/// Answering an append goes forward.
pub proof fn lemma_append_onward(s: NodeModel, m: AppendModel)
    requires
        s.wf(),
        s.term >= m.term,
    ensures
        onward(s, s.on_append(m).0),
        s.on_append(m).0.role == Role::Follower || s.on_append(m).0 == s,
{
    if m.term >= s.term {
        let here = s.recognising(m.leader);
        let prev = m.prev_log_index as int;
        let fresh = here.log.uncovered(prev, m.entries);
        if prev <= here.log.last_index() && here.log.agrees_at(prev, m.prev_log_term)
            && crate::model::follows(prev, m.entries) && !here.undoes_commit(fresh) {
            let merged = here.log.merge(fresh);
            crate::upkeep::lemma_merge(here.log, prev, m.entries);
            assert forall|i: int|
                i <= s.commit && s.log.holds(i) && merged.holds(i) implies #[trigger] s.log.at(i)
                == merged.at(i) by {
                assert(merged.entry(i) == here.log.entry(i));
            }
        }
    }
}

/// Answering a snapshot goes forward.
pub proof fn lemma_install_onward(s: NodeModel, m: InstallModel)
    requires
        s.wf(),
        s.term >= m.term,
    ensures
        onward(s, s.on_install(m).0),
        s.on_install(m).0.role == Role::Follower || s.on_install(m).0 == s,
{
}

/// An acknowledgement goes forward.
proof fn lemma_acknowledged_onward(s: NodeModel, slot: int, index: Index)
    requires
        s.wf(),
        s.role == Role::Leader,
        0 <= slot < s.progress.len(),
    ensures
        onward(s, s.acknowledged(slot, index).0),
        s.acknowledged(slot, index).0.log == s.log,
        s.acknowledged(slot, index).0.term == s.term,
{
    if index <= s.log.last_index() {
        let known = s.progress[slot].agreeing(index);
        let mid = s.knowing(slot, known);
        crate::upkeep::lemma_commit_target(mid, mid.log.last_index());
    }
}

/// A message goes forward, and leaves the log of a node that leads the same term
/// before and after as it is.
proof fn lemma_message_onward(s: NodeModel, m: MessageModel)
    requires
        s.wf(),
        s.has_room_for(EventModel::Message(m)),
    ensures
        onward(s, s.on_message(m).0),
        s.role == Role::Leader && s.on_message(m).0.role == Role::Leader && s.on_message(m).0.term
            == s.term ==> grew(s.log, s.on_message(m).0.log),
{
    let term = m.term();
    let mid = s.seen(term);
    let t = s.on_message(m).0;
    crate::upkeep::lemma_seen(s, term);
    assert(onward(s, mid));
    match m {
        MessageModel::PreVote(x) => {},
        MessageModel::PreVoteReply(x) => {},
        MessageModel::RequestVote(x) => if x.force || !s.leader_is_active() {
            assert(onward(mid, t));
            lemma_onward_through(s, mid, t);
        },
        MessageModel::RequestVoteReply(x) => {
            if mid.role == Role::Candidate && x.term == mid.term && x.vote_granted
                && mid.members.contains(x.from) && !mid.votes.contains(x.from) {
                let counted = mid.counting(x.from);
                assert(counted.wf());
                crate::upkeep::lemma_leading(counted);
                lemma_broadcast_and_committed_onward(counted.leading());
            }
            assert(onward(mid, t));
            lemma_onward_through(s, mid, t);
        },
        MessageModel::AppendEntries(x) => {
            lemma_append_onward(mid, x);
            lemma_onward_through(s, mid, t);
        },
        MessageModel::AppendEntriesReply(x) => {
            let slot = crate::model::slot_of(mid.progress, x.from);
            crate::upkeep::lemma_slot_of(mid.progress, x.from);
            if mid.role == Role::Leader && x.term == mid.term && slot < mid.progress.len()
                && x.success {
                lemma_acknowledged_onward(mid, slot, x.match_index);
            }
            lemma_onward_through(s, mid, t);
        },
        MessageModel::InstallSnapshot(x) => {
            lemma_install_onward(mid, x);
            lemma_onward_through(s, mid, t);
        },
        MessageModel::InstallSnapshotReply(x) => {
            let slot = crate::model::slot_of(mid.progress, x.from);
            crate::upkeep::lemma_slot_of(mid.progress, x.from);
            if mid.role == Role::Leader && x.term == mid.term && slot < mid.progress.len() {
                lemma_acknowledged_onward(mid, slot, x.last_index);
            }
            lemma_onward_through(s, mid, t);
        },
        MessageModel::TimeoutNow(x) => {
            if !(x.term < mid.term || mid.role == Role::Leader || !mid.is_voter()) {
                lemma_election_onward(mid, true);
            }
            lemma_onward_through(s, mid, t);
        },
    }
}

/// A leader's new entry goes forward.
proof fn lemma_appended_onward(s: NodeModel, mid: NodeModel, entry: EntryModel)
    requires
        s.wf(),
        mid.wf(),
        mid.log == s.log.append(seq![entry]),
        mid.cfg == s.cfg,
        mid.term == s.term,
        mid.voted_for == s.voted_for,
        mid.commit == s.commit,
        mid.applied == s.applied,
    ensures
        onward(s, mid.broadcast_and_committed().0),
        grew(s.log, mid.broadcast_and_committed().0.log),
{
    assert forall|i: int| s.log.holds(i) implies #[trigger] s.log.at(i) == mid.log.at(i) by {}
    lemma_broadcast_and_committed_onward(mid);
    lemma_onward_through(s, mid, mid.broadcast_and_committed().0);
}

/// A change of the voters goes forward.
proof fn lemma_change_onward(s: NodeModel, ids: Seq<NodeId>)
    requires
        s.wf(),
        s.role == Role::Leader,
        s.transfer is None,
        s.log.last_index() + 1 < u64::MAX,
        crate::members::ascending(ids),
        ids.len() > 0,
    ensures
        onward(s, s.on_change(ids).0),
        grew(s.log, s.on_change(ids).0.log),
{
    crate::upkeep::lemma_voters_after_config(s, ids);
    crate::upkeep::lemma_changed(s, ids);
    lemma_appended_onward(s, s.changed(ids), s.next_config(ids));
}

/// Every step goes forward.
pub proof fn lemma_step_onward(s: NodeModel, event: EventModel)
    requires
        s.wf(),
        s.has_room_for(event),
    ensures
        s.step(event) matches StepModel::Moved(t, _) ==> onward(s, t) && (s.role == Role::Leader
            && t.role == Role::Leader && t.term == s.term ==> grew(s.log, t.log)),
{
    match event {
        EventModel::Tick => lemma_tick_onward(s),
        EventModel::Message(m) => lemma_message_onward(s, m),
        EventModel::Propose(command) => {
            if s.refusal() is None {
                let entry = s.next_command(command);
                crate::upkeep::lemma_command_appended(s, command);
                let mid = s.appended(entry);
                lemma_appended_onward(s, mid, entry);
            }
        },
        EventModel::Snapshot { index, data } => {},
        EventModel::AddServer(id) => {
            if s.starts_change(event) {
                crate::members::lemma_insert_id(s.members, id);
                lemma_change_onward(s, crate::members::insert_id(s.members, id));
            }
        },
        EventModel::RemoveServer(id) => {
            if s.starts_change(event) {
                crate::members::lemma_without(s.members, id);
                lemma_change_onward(s, crate::members::without(s.members, id));
            }
        },
        EventModel::TransferLeadership(target) => {},
    }
}

/// A node's term never falls.
pub proof fn law_terms_never_fall(s: NodeModel, event: EventModel)
    requires
        s.wf(),
        s.has_room_for(event),
    ensures
        s.step(event) matches StepModel::Moved(t, _) ==> t.term >= s.term,
{
    lemma_step_onward(s, event);
}

/// A node's settings, its id among them, stay as they are.
pub proof fn law_settings_stay(s: NodeModel, event: EventModel)
    requires
        s.wf(),
        s.has_room_for(event),
    ensures
        s.step(event) matches StepModel::Moved(t, _) ==> t.cfg == s.cfg,
{
    lemma_step_onward(s, event);
}

/// Within a term a vote, once cast, stays as it is.
pub proof fn law_a_vote_is_kept(s: NodeModel, event: EventModel)
    requires
        s.wf(),
        s.has_room_for(event),
        s.voted_for is Some,
    ensures
        s.step(event) matches StepModel::Moved(t, _) ==> t.term == s.term ==> t.voted_for
            == s.voted_for,
{
    lemma_step_onward(s, event);
}

/// What a node has committed or applied never falls back, nor does its log's base.
pub proof fn law_progress_is_never_undone(s: NodeModel, event: EventModel)
    requires
        s.wf(),
        s.has_room_for(event),
    ensures
        s.step(event) matches StepModel::Moved(t, _) ==> t.commit >= s.commit && t.applied
            >= s.applied && t.log.base_index() >= s.log.base_index(),
{
    lemma_step_onward(s, event);
}

/// A committed entry is never replaced or deleted, only compacted.
pub proof fn law_committed_entries_stay(s: NodeModel, event: EventModel, index: int)
    requires
        s.wf(),
        s.has_room_for(event),
        index <= s.commit,
        s.log.holds(index),
    ensures
        s.step(event) matches StepModel::Moved(t, _) ==> index <= t.log.last_index() && (
        t.log.base_index() < index ==> t.log.entry(index) == s.log.entry(index)),
{
    lemma_step_onward(s, event);
    crate::upkeep::law_every_step_keeps_the_node_well_formed(s, event);
    if let StepModel::Moved(t, _) = s.step(event) {
        if t.log.base_index() < index {
            assert(t.log.holds(index));
            assert(s.log.at(index) == t.log.at(index));
        }
    }
}

/// Leader append-only: as long as a node leads a term, it replaces and deletes
/// nothing in its log, it only appends.
pub proof fn law_a_leader_only_appends(s: NodeModel, event: EventModel, index: int)
    requires
        s.wf(),
        s.has_room_for(event),
        s.role == Role::Leader,
        s.log.holds(index),
    ensures
        s.step(event) matches StepModel::Moved(t, _) ==> t.role == Role::Leader && t.term == s.term
            ==> index <= t.log.last_index() && (t.log.base_index() < index ==> t.log.entry(index)
            == s.log.entry(index)),
{
    lemma_step_onward(s, event);
    if let StepModel::Moved(t, _) = s.step(event) {
        if t.role == Role::Leader && t.term == s.term && t.log.base_index() < index {
            assert(t.log.holds(index));
            assert(s.log.at(index) == t.log.at(index));
        }
    }
}

// ---- commit and application ----------------------------------------------

/// A leader that broadcasts and commits has applied what it committed.
proof fn lemma_broadcast_and_committed_settled(s: NodeModel)
    requires
        s.applied == s.commit,
    ensures
        ({
            let t = s.broadcast_and_committed().0;
            t.applied == t.commit && t.log == s.log
        }),
{
}

/// An election leaves all that is committed applied.
proof fn lemma_election_settled(s: NodeModel, force: bool)
    requires
        s.applied == s.commit,
    ensures
        ({
            let t = s.election(force).0;
            t.applied == t.commit
        }),
{
    lemma_broadcast_and_committed_settled(s.campaigning().leading());
}

/// An acknowledgement leaves all that is committed applied.
proof fn lemma_acknowledged_settled(s: NodeModel, slot: int, index: Index)
    requires
        s.applied == s.commit,
    ensures
        ({
            let t = s.acknowledged(slot, index).0;
            t.applied == t.commit && t.log == s.log
        }),
{
}

/// Whatever is committed is applied in the same step: between steps nothing
/// committed waits to be handed out.
pub proof fn law_everything_committed_is_applied(s: NodeModel, event: EventModel)
    requires
        s.applied == s.commit,
    ensures
        s.step(event) matches StepModel::Moved(t, _) ==> t.applied == t.commit,
{
    match event {
        EventModel::Tick => lemma_election_settled(s.ticked(), false),
        EventModel::Message(m) => {
            let mid = s.seen(m.term());
            match m {
                MessageModel::RequestVoteReply(x) => {
                    let counted = mid.counting(x.from);
                    lemma_broadcast_and_committed_settled(counted.leading());
                },
                MessageModel::AppendEntriesReply(x) => {
                    let slot = crate::model::slot_of(mid.progress, x.from);
                    lemma_acknowledged_settled(mid, slot, x.match_index);
                },
                MessageModel::InstallSnapshotReply(x) => {
                    let slot = crate::model::slot_of(mid.progress, x.from);
                    lemma_acknowledged_settled(mid, slot, x.last_index);
                },
                MessageModel::TimeoutNow(x) => lemma_election_settled(mid, true),
                _ => {},
            }
        },
        EventModel::Propose(command) => {
            let entry = s.next_command(command);
            lemma_broadcast_and_committed_settled(s.appended(entry));
        },
        EventModel::Snapshot { index, data } => {},
        EventModel::AddServer(id) => lemma_change_settled(
            s,
            crate::members::insert_id(s.members, id),
        ),
        EventModel::RemoveServer(id) => lemma_change_settled(
            s,
            crate::members::without(s.members, id),
        ),
        EventModel::TransferLeadership(target) => {},
    }
}

/// A change of the voters leaves all that is committed applied.
proof fn lemma_change_settled(s: NodeModel, ids: Seq<NodeId>)
    requires
        s.applied == s.commit,
    ensures
        ({
            let t = s.on_change(ids).0;
            t.applied == t.commit
        }),
{
    lemma_broadcast_and_committed_settled(s.changed(ids));
}

/// What is known of a voter is found in the same place where the voters are the
/// same.
pub proof fn lemma_slots_alike(p: Seq<Progress>, q: Seq<Progress>, peer: NodeId)
    requires
        p.len() == q.len(),
        forall|i: int| 0 <= i < p.len() ==> (#[trigger] p[i]).peer == q[i].peer,
    ensures
        crate::model::slot_of(p, peer) == crate::model::slot_of(q, peer),
    decreases p.len(),
{
    if p.len() > 0 {
        let a = p.drop_last();
        let b = q.drop_last();
        assert forall|i: int| 0 <= i < a.len() implies (#[trigger] a[i]).peer == b[i].peer by {
            assert(a[i] == p[i]);
        }
        lemma_slots_alike(a, b, peer);
        assert(p[p.len() - 1].peer == q[q.len() - 1].peer);
    }
}

/// Two leaders may commit as much, if they have the same term and voters, know as
/// much of them, and have logs of the same length and with the same terms past what
/// is committed.
pub open spec fn commits_alike(s: NodeModel, t: NodeModel) -> bool {
    &&& t.cfg == s.cfg
    &&& t.term == s.term
    &&& t.members == s.members
    &&& t.commit == s.commit
    &&& t.log.last_index() == s.log.last_index()
    &&& forall|i: int| i > s.commit ==> #[trigger] t.log.term_at(i) == s.log.term_at(i)
    &&& t.progress.len() == s.progress.len()
    &&& forall|i: int|
        0 <= i < s.progress.len() ==> (#[trigger] s.progress[i]).peer == t.progress[i].peer
            && s.progress[i].matched == t.progress[i].matched
}

/// Conditions that agree on the elements keep the same ones.
pub proof fn lemma_filter_alike(
    ids: Seq<NodeId>,
    p: spec_fn(NodeId) -> bool,
    q: spec_fn(NodeId) -> bool,
)
    requires
        forall|i: int| 0 <= i < ids.len() ==> p(#[trigger] ids[i]) == q(ids[i]),
    ensures
        ids.filter(p) == ids.filter(q),
    decreases ids.len(),
{
    reveal(Seq::filter);
    if ids.len() > 0 {
        let short = ids.drop_last();
        assert forall|i: int| 0 <= i < short.len() implies p(#[trigger] short[i]) == q(
            short[i],
        ) by {
            assert(short[i] == ids[i]);
        }
        lemma_filter_alike(short, p, q);
        assert(p(ids[ids.len() - 1]) == q(ids[ids.len() - 1]));
    }
}

/// Such leaders have the same target.
pub proof fn lemma_commits_alike(s: NodeModel, t: NodeModel, index: int)
    requires
        s.wf(),
        s.role == Role::Leader,
        commits_alike(s, t),
    ensures
        t.commit_target(index) == s.commit_target(index),
    decreases index,
{
    if index > s.commit {
        let (p, q) = (t.holds_through(index), s.holds_through(index));
        assert forall|i: int| 0 <= i < s.members.len() implies p(#[trigger] s.members[i]) == q(
            s.members[i],
        ) by {
            let m = s.members[i];
            assert(s.members.contains(m));
            if m != s.cfg.id {
                lemma_slots_alike(s.progress, t.progress, m);
                crate::upkeep::lemma_every_other_voter_is_tracked(s, m);
                let at = crate::model::slot_of(s.progress, m);
                crate::upkeep::lemma_slot_of(s.progress, m);
                assert(s.progress[at].matched == t.progress[at].matched);
            }
        }
        lemma_filter_alike(s.members, p, q);
        assert(t.log.term_at(index) == s.log.term_at(index));
        lemma_commits_alike(s, t, index - 1);
    }
}

/// Having committed up to the target, a leader has no further one.
proof fn lemma_target_is_final(s: NodeModel, t: NodeModel, index: int)
    requires
        t == (NodeModel { commit: t.commit, applied: t.applied, ..s }),
        t.commit >= s.commit,
        s.commit_target(index) == t.commit,
    ensures
        t.commit_target(index) == t.commit,
    decreases index,
{
    if index > t.commit {
        assert forall|m: NodeId| #[trigger] t.matched(m) == s.matched(m) by {}
        assert(t.holds_through(index) =~= s.holds_through(index));
        lemma_target_is_final(s, t, index - 1);
    }
}

/// A leader that commits has committed all that it may.
proof fn lemma_committed_all(s: NodeModel)
    requires
        s.log.last_index() <= u64::MAX,
    ensures
        s.committed().0.caught_up(),
{
    let target = s.commit_target(s.log.last_index());
    crate::upkeep::lemma_commit_target(s, s.log.last_index());
    if target > s.commit {
        let t = NodeModel { commit: target as Index, ..s }.drained().0;
        lemma_target_is_final(s, t, s.log.last_index());
    }
}

/// Telling one voter more leaves a leader with all committed that it may.
proof fn lemma_sent_to_all(s: NodeModel, slot: int)
    requires
        s.wf(),
        s.caught_up(),
        s.role == Role::Leader,
        0 <= slot < s.progress.len(),
    ensures
        s.sent_to(slot).0.caught_up(),
{
    let t = s.sent_to(slot).0;
    assert(commits_alike(s, t));
    lemma_commits_alike(s, t, s.log.last_index());
}

/// An acknowledgement leaves a leader with all committed that it may.
pub proof fn lemma_acknowledged_all(s: NodeModel, slot: int, index: Index)
    requires
        s.wf(),
        s.caught_up(),
        s.role == Role::Leader,
        0 <= slot < s.progress.len(),
    ensures
        s.acknowledged(slot, index).0.caught_up(),
{
    if index <= s.log.last_index() {
        let known = s.progress[slot].agreeing(index);
        let mid = s.knowing(slot, known);
        crate::upkeep::lemma_progress_update(s, slot, known);
        crate::upkeep::lemma_committed(mid);
        lemma_committed_all(mid);
        let next = mid.committed().0;
        if next.role == Role::Leader && known.next <= next.log.last_index() {
            lemma_sent_to_all(next, slot);
        }
    }
}

/// A message leaves a leader with all committed that it may.
proof fn lemma_message_all(s: NodeModel, m: MessageModel)
    requires
        s.wf(),
        s.has_room_for(EventModel::Message(m)),
        s.caught_up(),
    ensures
        s.on_message(m).0.caught_up(),
{
    let mid = s.seen(m.term());
    crate::upkeep::lemma_seen(s, m.term());
    match m {
        MessageModel::RequestVote(x) => {
            if mid.role == Role::Leader && mid.grants(x) {
                let t = mid.on_request_vote(x).0;
                assert(commits_alike(mid, t)) by {
                    assert forall|i: int| #[trigger] t.log.term_at(i) == mid.log.term_at(i) by {
                        assert(t.log.entries == mid.log.entries);
                        assert(t.log.snapshot == mid.log.snapshot);
                    }
                }
                lemma_commits_alike(mid, t, mid.log.last_index());
            }
        },
        MessageModel::RequestVoteReply(x) => {
            if mid.role == Role::Candidate && x.term == mid.term && x.vote_granted
                && mid.members.contains(x.from) && !mid.votes.contains(x.from) {
                lemma_committed_all(mid.counting(x.from).leading().broadcast().0);
            }
        },
        MessageModel::AppendEntries(x) => lemma_append_onward(mid, x),
        MessageModel::InstallSnapshot(x) => lemma_install_onward(mid, x),
        MessageModel::AppendEntriesReply(x) => {
            let slot = crate::model::slot_of(mid.progress, x.from);
            crate::upkeep::lemma_slot_of(mid.progress, x.from);
            if mid.role == Role::Leader && x.term == mid.term && slot < mid.progress.len() {
                if x.success {
                    lemma_acknowledged_all(mid, slot, x.match_index);
                } else {
                    let p = mid.progress[slot];
                    let back = Progress {
                        next: mid.backed_off(p, x) as Index,
                        streaming: false,
                        ..p
                    };
                    let t = mid.knowing(slot, back).sent_to(slot).0;
                    assert(commits_alike(mid, t));
                    lemma_commits_alike(mid, t, mid.log.last_index());
                }
            }
        },
        MessageModel::InstallSnapshotReply(x) => {
            let slot = crate::model::slot_of(mid.progress, x.from);
            crate::upkeep::lemma_slot_of(mid.progress, x.from);
            if mid.role == Role::Leader && x.term == mid.term && slot < mid.progress.len() {
                lemma_acknowledged_all(mid, slot, x.last_index);
            }
        },
        MessageModel::TimeoutNow(x) => {
            lemma_committed_all(mid.campaigning().leading().broadcast().0);
        },
        _ => {},
    }
}

/// A leader has committed all that it may: between steps no index past its commit
/// index is held by a majority and of its own term. A node that starts out does not
/// lead, so this holds of every node over any run.
pub proof fn law_a_leader_has_committed_all_it_may(s: NodeModel, event: EventModel)
    requires
        s.wf(),
        s.has_room_for(event),
        s.caught_up(),
    ensures
        s.step(event) matches StepModel::Moved(t, _) ==> t.caught_up(),
{
    match event {
        EventModel::Tick => {
            if s.role == Role::Leader {
                let t = s.on_tick().0;
                assert(commits_alike(s, t));
                lemma_commits_alike(s, t, s.log.last_index());
            } else {
                lemma_committed_all(s.ticked().campaigning().leading().broadcast().0);
            }
        },
        EventModel::Message(m) => lemma_message_all(s, m),
        EventModel::Propose(command) => {
            lemma_committed_all(s.appended(s.next_command(command)).broadcast().0);
        },
        EventModel::Snapshot { index, data } => {
            if s.role == Role::Leader && s.log.base_index() < index <= s.applied {
                let t = s.on_snapshot(index, data);
                crate::upkeep::lemma_voters_after_compaction(s, index, data);
                assert forall|i: int| i > s.commit implies #[trigger] t.log.term_at(i)
                    == s.log.term_at(i) by {
                    crate::log::law_compaction_keeps_the_boundary(
                        s.log,
                        t.log.snapshot->0,
                        i,
                    );
                }
                assert(commits_alike(s, t));
                lemma_commits_alike(s, t, s.log.last_index());
            }
        },
        EventModel::AddServer(id) => {
            lemma_committed_all(
                s.changed(crate::members::insert_id(s.members, id)).broadcast().0,
            );
        },
        EventModel::RemoveServer(id) => {
            lemma_committed_all(s.changed(crate::members::without(s.members, id)).broadcast().0);
        },
        EventModel::TransferLeadership(target) => {
            let slot = crate::model::slot_of(s.progress, target);
            crate::upkeep::lemma_slot_of(s.progress, target);
            if s.role == Role::Leader && slot < s.progress.len() {
                let next = NodeModel { transfer: Some(target), election_elapsed: 0, ..s };
                let sent = next.sent_to(slot).0;
                assert(commits_alike(s, next));
                assert(commits_alike(s, sent));
                lemma_commits_alike(s, next, s.log.last_index());
                lemma_commits_alike(s, sent, s.log.last_index());
            }
        },
    }
}

/// A condition that only one id meets is met once at most.
pub proof fn lemma_only_one(ids: Seq<NodeId>, id: NodeId, pred: spec_fn(NodeId) -> bool)
    requires
        crate::members::ascending(ids),
        forall|x: NodeId| ids.contains(x) && #[trigger] pred(x) ==> x == id,
    ensures
        ids.filter(pred).len() <= (if ids.contains(id) {
            1int
        } else {
            0
        }),
    decreases ids.len(),
{
    reveal(Seq::filter);
    if ids.len() > 0 {
        let short = ids.drop_last();
        assert forall|x: NodeId| short.contains(x) implies ids.contains(x) by {
            let k = choose|k: int| 0 <= k < short.len() && short[k] == x;
            assert(ids[k] == x);
        }
        lemma_only_one(short, id, pred);
        assert(ids[ids.len() - 1] == ids.last());
        if short.contains(id) {
            let k = choose|k: int| 0 <= k < short.len() && short[k] == id;
            assert(ids[k] < ids[ids.len() - 1]);
        }
    }
}

/// A new entry alone lets a leader commit nothing that it could not before, unless
/// it is the only voter.
proof fn lemma_nobody_else_has_it(s: NodeModel, command: Seq<u8>, index: int)
    requires
        s.wf(),
        s.role == Role::Leader,
        s.log.last_index() + 1 < u64::MAX,
        s.others().len() > 0,
        index <= s.log.last_index() + 1,
    ensures
        ({
            let mid = s.appended(s.next_command(command));
            mid.commit_target(index) == s.commit_target(if index <= s.log.last_index() {
                index
            } else {
                s.log.last_index()
            })
        }),
    decreases index,
{
    let mid = s.appended(s.next_command(command));
    let last = s.log.last_index();
    crate::upkeep::lemma_command_appended(s, command);
    if index > last {
        let have = mid.holds_through(index);
        crate::upkeep::lemma_others(s);
        assert forall|x: NodeId| s.members.contains(x) && #[trigger] have(x) implies x
            == s.cfg.id by {
            if x != s.cfg.id {
                crate::upkeep::lemma_every_other_voter_is_tracked(s, x);
                crate::upkeep::lemma_slot_of(s.progress, x);
                let at = crate::model::slot_of(s.progress, x);
                assert(s.progress[at].peer == s.others()[at]);
            }
        }
        lemma_only_one(s.members, s.cfg.id, have);
        let other = s.others()[0];
        assert(s.others().contains(other));
        assert(s.members.contains(other) && other != s.cfg.id);
        if s.members.contains(s.cfg.id) {
            assert(s.members.len() >= 2);
        }
        assert(!mid.may_commit(index));
        lemma_nobody_else_has_it(s, command, index - 1);
    } else if index > s.commit {
        assert forall|m: NodeId| (#[trigger] mid.matched(m) >= index) == (s.matched(m)
            >= index) by {}
        assert(mid.holds_through(index) =~= s.holds_through(index));
        assert(mid.log.term_at(index) == s.log.term_at(index));
        lemma_nobody_else_has_it(s, command, index - 1);
    }
}

/// A proposal in a cluster with other voters commits and applies nothing by itself:
/// the entry goes to the end of the log and out to the others, and that is all. The
/// only voter commits it at once.
pub proof fn law_a_proposal_waits_for_the_other_voters(s: NodeModel, command: Seq<u8>)
    requires
        s.wf(),
        s.has_room_for(EventModel::Propose(command)),
        s.caught_up(),
        s.refusal() is None,
    ensures
        s.on_propose(command) matches StepModel::Moved(t, out) && {
            &&& t.log == s.log.append(seq![s.next_command(command)])
            &&& s.others().len() > 0 ==> {
                &&& t.role == Role::Leader
                &&& t.commit == s.commit
                &&& t.applied == s.applied
                &&& out == s.appended(s.next_command(command)).broadcast().1
            }
            &&& s.members == seq![s.cfg.id] ==> t.commit == s.log.last_index() + 1
        },
{
    let mid = s.appended(s.next_command(command));
    let sent = mid.broadcast().0;
    let last = s.log.last_index();
    crate::upkeep::lemma_command_appended(s, command);
    crate::upkeep::lemma_broadcast(mid);
    assert(commits_alike(mid, sent)) by {
        assert forall|i: int| 0 <= i < mid.progress.len() implies (
        #[trigger] mid.progress[i]).peer == sent.progress[i].peer && mid.progress[i].matched
            == sent.progress[i].matched by {
            crate::upkeep::lemma_after_sending(mid, mid.progress[i]);
        }
    }
    lemma_commits_alike(mid, sent, last + 1);
    if s.others().len() > 0 {
        lemma_nobody_else_has_it(s, command, last + 1);
        assert(mid.broadcast().1 + Seq::<ActionModel>::empty() =~= mid.broadcast().1);
    }
    if s.members == seq![s.cfg.id] {
        let have = sent.holds_through(last + 1);
        reveal(Seq::filter);
        assert(have(s.cfg.id));
        assert(sent.members.drop_last() =~= Seq::<NodeId>::empty());
        assert(sent.members.drop_last().filter(have) =~= Seq::<NodeId>::empty());
        assert(sent.members.filter(have).len() == 1);
        assert(sent.may_commit(last + 1));
    }
}

/// A step that writes nothing leaves the log as it is.
pub proof fn law_only_writes_change_the_log(s: NodeModel, event: EventModel)
    requires
        s.wf(),
        s.has_room_for(event),
    ensures
        s.step(event) matches StepModel::Moved(t, _) ==> !s.writes_on(event) ==> t.log == s.log,
{
    match event {
        EventModel::Tick => {},
        EventModel::Message(m) => {
            if !s.writes_on_message(m) {
                lemma_message_without_writing(s, m);
            }
        },
        _ => {},
    }
}

/// A message that has nothing written leaves the log as it is.
proof fn lemma_message_without_writing(s: NodeModel, m: MessageModel)
    requires
        s.wf(),
        !s.writes_on_message(m),
    ensures
        s.on_message(m).0.log == s.log,
{
    match m {
        MessageModel::AppendEntries(a) => {
            let here = s.recognising(a.leader);
            let fresh = here.log.uncovered(a.prev_log_index as int, a.entries);
            if a.term >= s.term && here.log.agrees_at(a.prev_log_index as int, a.prev_log_term)
                && crate::model::follows(a.prev_log_index as int, a.entries)
                && !here.undoes_commit(fresh) {
                crate::upkeep::lemma_first_new(here.log, fresh, 0);
                assert(here.log.merge(fresh) == here.log);
            }
        },
        _ => {},
    }
}

// ---- what is handed out --------------------------------------------------

/// A message may go out from a node in state `t`: a vote announced is the one on
/// record, a batch is no longer than configured, and only a target of a transfer
/// that has the whole log is told to take over.
pub open spec fn may_send(t: NodeModel, to: NodeId, message: MessageModel) -> bool {
    match message {
        MessageModel::RequestVoteReply(r) => r.vote_granted ==> t.log.hard == (HardState {
            term: r.term,
            voted_for: Some(to),
        }),
        MessageModel::AppendEntries(a) => a.entries.len() <= t.cfg.max_batch,
        MessageModel::TimeoutNow(x) => t.transfer == Some(to) && exists|i: int|
            0 <= i < t.progress.len() && (#[trigger] t.progress[i]).peer == to
                && t.progress[i].matched == t.log.last_index(),
        _ => true,
    }
}

/// Every message in a list of actions may go out.
pub open spec fn sends_well(t: NodeModel, out: Seq<ActionModel>) -> bool {
    forall|i: int|
        0 <= i < out.len() ==> (#[trigger] out[i] matches ActionModel::Send { to, message }
            ==> may_send(t, to, message))
}

/// The commands of a list of actions are those of `log` with an index above `low`
/// and up to `high`, each once, in order of index. No configuration is among them.
pub open spec fn applies_well(out: Seq<ActionModel>, log: LogModel, low: int, high: int) -> bool {
    &&& forall|i: int|
        0 <= i < out.len() ==> (#[trigger] out[i] matches ActionModel::Apply {
            index,
            term,
            command,
        } ==> low < index <= high && log.entry(index as int) == Some(
            EntryModel::normal(term, index, command),
        ))
    &&& forall|i: int, j: int|
        0 <= i < j < out.len() && out[i] is Apply && out[j] is Apply ==> (
        #[trigger] out[i])->Apply_index < (#[trigger] out[j])->Apply_index
    &&& forall|index: int|
        low < index <= high && log.holds(index) && (#[trigger] log.at(index)).kind
            == EntryKind::Normal ==> out.contains(
            ActionModel::Apply {
                index: index as Index,
                term: log.at(index).term,
                command: log.at(index).command,
            },
        )
}

/// No command is handed out.
pub open spec fn applies_nothing(out: Seq<ActionModel>) -> bool {
    forall|i: int| 0 <= i < out.len() ==> !(#[trigger] out[i] is Apply)
}

/// What a step from `s` to `t` hands out is in order.
pub open spec fn hands_out_well(s: NodeModel, t: NodeModel, out: Seq<ActionModel>) -> bool {
    sends_well(t, out) && applies_well(out, t.log, s.applied as int, t.applied as int)
}

/// Actions that apply nothing may stand before and after.
proof fn lemma_applies_between(
    a: Seq<ActionModel>,
    b: Seq<ActionModel>,
    c: Seq<ActionModel>,
    log: LogModel,
    low: int,
    high: int,
)
    requires
        applies_nothing(a),
        applies_well(b, log, low, high),
        applies_nothing(c),
    ensures
        applies_well(a + b + c, log, low, high),
{
    let all = a + b + c;
    assert forall|i: int| 0 <= i < all.len() && #[trigger] all[i] is Apply implies a.len() <= i
        < a.len() + b.len() && all[i] == b[i - a.len()] by {
        if i < a.len() {
            assert(all[i] == a[i]);
        } else if i >= a.len() + b.len() {
            assert(all[i] == c[i - a.len() - b.len()]);
        }
    }
    assert forall|x: ActionModel| b.contains(x) implies #[trigger] all.contains(x) by {
        let k = choose|k: int| 0 <= k < b.len() && b[k] == x;
        assert(all[a.len() + k] == x);
    }
    assert forall|i: int, j: int|
        0 <= i < j < all.len() && all[i] is Apply && all[j] is Apply implies (
    #[trigger] all[i])->Apply_index < (#[trigger] all[j])->Apply_index by {
        assert(all[i] == b[i - a.len()]);
        assert(all[j] == b[j - a.len()]);
    }
}

/// A list without commands is right where nothing is newly applied.
proof fn lemma_applies_none(out: Seq<ActionModel>, log: LogModel, low: int, high: int)
    requires
        applies_nothing(out),
        low >= high || log.base_index() >= high,
    ensures
        applies_well(out, log, low, high),
{
}

/// A run of entries is handed out in order.
pub proof fn lemma_run_applies_well(log: LogModel, low: int, high: int)
    requires
        log.wf(),
        log.base_index() <= low <= high <= log.last_index(),
    ensures
        applies_well(crate::model::applies(log.between(low + 1, high)), log, low, high),
        forall|i: int|
            0 <= i < crate::model::applies(log.between(low + 1, high)).len()
                ==> #[trigger] crate::model::applies(log.between(low + 1, high))[i] is Apply,
    decreases high - low,
{
    let run = log.between(low + 1, high);
    let out = crate::model::applies(run);
    crate::upkeep::lemma_between(log, low + 1, high);
    if low < high {
        let short = log.between(low + 1, high - 1);
        crate::upkeep::lemma_between(log, low + 1, high - 1);
        lemma_run_applies_well(log, low, high - 1);
        assert(run.drop_last() =~= short);
        let e = run.last();
        assert(log.holds(high));
        assert(e == log.at(high));
        assert(e.index == high);
        let before = crate::model::applies(short);
        if e.kind == EntryKind::Normal {
            let x = ActionModel::Apply { index: e.index, term: e.term, command: e.command };
            assert(out == before.push(x));
            assert(out[before.len() as int] == x);
            assert forall|y: ActionModel| before.contains(y) implies #[trigger] out.contains(y) by {
                let k = choose|k: int| 0 <= k < before.len() && before[k] == y;
                assert(out[k] == y);
            }
            assert forall|i: int| 0 <= i < out.len() implies #[trigger] out[i] == (if i
                < before.len() {
                before[i]
            } else {
                x
            }) by {}
            assert(out.contains(x));
        }
    }
}

/// Handing out what is committed is in order.
proof fn lemma_drained_well(s: NodeModel)
    requires
        s.wf(),
    ensures
        hands_out_well(s, s.drained().0, s.drained().1),
        forall|t: NodeModel| sends_well(t, s.drained().1),
{
    let done = crate::model::applies(s.log.between(s.applied + 1, s.commit as int));
    lemma_run_applies_well(s.log, s.applied as int, s.commit as int);
    let hint = seq![
        ActionModel::Snapshot { index: s.commit, term: s.log.term_at(s.commit as int)->0 },
    ];
    let none = Seq::<ActionModel>::empty();
    lemma_applies_between(none, done, hint, s.log, s.applied as int, s.commit as int);
    assert(none + done + hint =~= done.push(hint[0]));
}

/// A leader's commits are handed out in order.
proof fn lemma_committed_well(s: NodeModel)
    requires
        s.wf(),
    ensures
        hands_out_well(s, s.committed().0, s.committed().1),
        forall|t: NodeModel| sends_well(t, s.committed().1),
{
    let target = s.commit_target(s.log.last_index());
    crate::upkeep::lemma_commit_target(s, s.log.last_index());
    if target > s.commit {
        let mid = NodeModel { commit: target as Index, ..s };
        assert(mid.wf());
        lemma_drained_well(mid);
    }
}

/// What a leader sends is no longer than configured.
proof fn lemma_outgoing_well(s: NodeModel, t: NodeModel, p: Progress)
    requires
        s.wf(),
        t.cfg == s.cfg,
        p.matched < p.next <= s.log.last_index() + 1,
    ensures
        may_send(t, p.peer, s.outgoing(p)),
{
    crate::upkeep::lemma_after_sending(s, p);
}

/// A broadcast followed by commits is in order.
proof fn lemma_broadcast_and_committed_well(s: NodeModel)
    requires
        s.wf(),
        s.role == Role::Leader,
    ensures
        hands_out_well(s, s.broadcast_and_committed().0, s.broadcast_and_committed().1),
{
    let (sent, out) = s.broadcast();
    let (next, more) = sent.committed();
    crate::upkeep::lemma_broadcast(s);
    lemma_committed_well(sent);
    assert forall|i: int| 0 <= i < out.len() implies (#[trigger] out[i] matches ActionModel::Send {
        to,
        message,
    } ==> may_send(next, to, message)) by {
        lemma_outgoing_well(s, next, s.progress[i]);
    }
    let none = Seq::<ActionModel>::empty();
    lemma_applies_between(out, more, none, next.log, s.applied as int, next.applied as int);
    assert(out + more + none =~= out + more);
    lemma_sends_both(next, out, more);
}

/// Lists of messages that may go out go together.
proof fn lemma_sends_both(t: NodeModel, a: Seq<ActionModel>, b: Seq<ActionModel>)
    requires
        sends_well(t, a),
        sends_well(t, b),
    ensures
        sends_well(t, a + b),
{
    let both = a + b;
    assert forall|i: int| 0 <= i < both.len() implies #[trigger] both[i] == (if i < a.len() {
        a[i]
    } else {
        b[i - a.len()]
    }) by {}
}

/// An election is in order.
proof fn lemma_election_well(s: NodeModel, force: bool)
    requires
        s.wf(),
        s.term < u64::MAX,
        s.is_voter(),
    ensures
        hands_out_well(s, s.election(force).0, s.election(force).1),
{
    let mid = s.campaigning();
    let (next, out) = s.election(force);
    crate::upkeep::lemma_campaigning(s);
    if 1 >= mid.quorum() {
        crate::upkeep::lemma_leading(mid);
        lemma_broadcast_and_committed_well(mid.leading());
    } else {
        lemma_applies_none(out, next.log, s.applied as int, next.applied as int);
    }
}

/// A tick is in order.
proof fn lemma_tick_well(s: NodeModel)
    requires
        s.wf(),
        s.has_room_for(EventModel::Tick),
    ensures
        hands_out_well(s, s.on_tick().0, s.on_tick().1),
{
    let (next, out) = s.on_tick();
    if s.role == Role::Leader {
        let waited = s.awaiting_transfer();
        if waited.heartbeat_elapsed + 1 >= waited.cfg.heartbeat_interval {
            let mid = NodeModel { heartbeat_elapsed: 0, ..waited };
            assert(mid.wf());
            assert forall|i: int| 0 <= i < out.len() implies (
            #[trigger] out[i] matches ActionModel::Send { to, message } ==> may_send(
                next,
                to,
                message,
            )) by {
                lemma_outgoing_well(mid, next, mid.progress[i]);
            }
        }
        lemma_applies_none(out, next.log, s.applied as int, next.applied as int);
    } else {
        let mid = s.ticked();
        if mid.election_due() {
            assert(mid.wf());
            lemma_election_well(mid, false);
        } else {
            lemma_applies_none(out, next.log, s.applied as int, next.applied as int);
        }
    }
}

/// The answer to an append is in order.
proof fn lemma_append_well(s: NodeModel, m: AppendModel)
    requires
        s.wf(),
        s.term >= m.term,
    ensures
        hands_out_well(s, s.on_append(m).0, s.on_append(m).1),
{
    let (next, out) = s.on_append(m);
    let here = s.recognising(m.leader);
    let prev = m.prev_log_index as int;
    let fresh = here.log.uncovered(prev, m.entries);
    if m.term >= s.term && prev <= here.log.last_index() && here.log.agrees_at(
        prev,
        m.prev_log_term,
    ) && crate::model::follows(prev, m.entries) && !here.undoes_commit(fresh) {
        let count = prev + m.entries.len();
        crate::upkeep::lemma_merge(here.log, prev, m.entries);
        let raw = NodeModel { log: here.log.merge(fresh), ..here };
        crate::upkeep::lemma_reconfigured(raw);
        let (merged, news) = raw.reconfigured();
        let mid = merged.raised(m.leader_commit, count);
        assert(mid.wf());
        lemma_drained_well(mid);
        let done = mid.drained().1;
        let reply = next.append_reply(m.leader, true, count, 0, 0);
        lemma_applies_between(news, done, reply, next.log, s.applied as int, next.applied as int);
        lemma_sends_both(next, news, done);
        lemma_sends_both(next, news + done, reply);
    } else {
        lemma_applies_none(out, next.log, s.applied as int, next.applied as int);
    }
}

/// The answer to a snapshot is in order.
proof fn lemma_install_well(s: NodeModel, m: InstallModel)
    requires
        s.wf(),
        s.term >= m.term,
    ensures
        hands_out_well(s, s.on_install(m).0, s.on_install(m).1),
{
    let (next, out) = s.on_install(m);
    lemma_applies_none(out, next.log, s.applied as int, next.applied as int);
}

/// What follows an acknowledgement is in order.
proof fn lemma_acknowledged_well(s: NodeModel, slot: int, index: Index)
    requires
        s.wf(),
        s.role == Role::Leader,
        0 <= slot < s.progress.len(),
    ensures
        hands_out_well(s, s.acknowledged(slot, index).0, s.acknowledged(slot, index).1),
{
    let (last, all) = s.acknowledged(slot, index);
    if index > s.log.last_index() {
        lemma_applies_none(all, last.log, s.applied as int, last.applied as int);
    } else {
        let known = s.progress[slot].agreeing(index);
        let mid = s.knowing(slot, known);
        crate::upkeep::lemma_progress_update(s, slot, known);
        let (next, done) = mid.committed();
        lemma_committed_well(mid);
        crate::upkeep::lemma_committed(mid);
        let none = Seq::<ActionModel>::empty();
        if next.role != Role::Leader {
        } else if known.next <= next.log.last_index() {
            let (sent, out) = next.sent_to(slot);
            let after = sent.handover(slot);
            crate::upkeep::lemma_sent_to(next, slot);
            lemma_outgoing_well(next, sent, next.progress[slot]);
            assert(sends_well(sent, out));
            assert(sent.progress[slot].peer == s.progress[slot].peer);
            assert(sends_well(sent, after));
            lemma_sends_both(sent, out, after);
            lemma_sends_both(sent, done, out + after);
            lemma_applies_between(
                none,
                done,
                out + after,
                sent.log,
                s.applied as int,
                sent.applied as int,
            );
            assert(none + done + (out + after) =~= done + out + after);
            assert(done + (out + after) =~= done + out + after);
        } else {
            let after = next.handover(slot);
            assert(next.progress[slot].peer == s.progress[slot].peer);
            assert(sends_well(next, after));
            lemma_sends_both(next, done, after);
            lemma_applies_between(
                none,
                done,
                after,
                next.log,
                s.applied as int,
                next.applied as int,
            );
            assert(none + done + after =~= done + after);
        }
    }
}

/// The answer to a message is in order.
proof fn lemma_message_well(s: NodeModel, m: MessageModel)
    requires
        s.wf(),
        s.has_room_for(EventModel::Message(m)),
    ensures
        hands_out_well(s, s.on_message(m).0, s.on_message(m).1),
{
    let term = m.term();
    let mid = s.seen(term);
    let (t, out) = s.on_message(m);
    crate::upkeep::lemma_seen(s, term);
    match m {
        MessageModel::PreVote(x) => lemma_applies_none(
            out,
            t.log,
            s.applied as int,
            t.applied as int,
        ),
        MessageModel::PreVoteReply(x) => lemma_applies_none(
            out,
            t.log,
            s.applied as int,
            t.applied as int,
        ),
        MessageModel::RequestVote(x) => lemma_applies_none(
            out,
            t.log,
            s.applied as int,
            t.applied as int,
        ),
        MessageModel::RequestVoteReply(x) => {
            if mid.role == Role::Candidate && x.term == mid.term && x.vote_granted
                && mid.members.contains(x.from) && !mid.votes.contains(x.from) && mid.votes.len()
                + 1 >= mid.quorum() {
                let counted = mid.counting(x.from);
                assert(counted.wf());
                crate::upkeep::lemma_leading(counted);
                lemma_broadcast_and_committed_well(counted.leading());
            } else {
                lemma_applies_none(out, t.log, s.applied as int, t.applied as int);
            }
        },
        MessageModel::AppendEntries(x) => lemma_append_well(mid, x),
        MessageModel::AppendEntriesReply(x) => {
            let slot = crate::model::slot_of(mid.progress, x.from);
            crate::upkeep::lemma_slot_of(mid.progress, x.from);
            if mid.role == Role::Leader && x.term == mid.term && slot < mid.progress.len() {
                if x.success {
                    lemma_acknowledged_well(mid, slot, x.match_index);
                } else {
                    let p = mid.progress[slot];
                    crate::upkeep::lemma_backed_off(mid, p, x);
                    let back = Progress {
                        next: mid.backed_off(p, x) as Index,
                        streaming: false,
                        ..p
                    };
                    crate::upkeep::lemma_progress_update(mid, slot, back);
                    let set = NodeModel { progress: mid.progress.update(slot, back), ..mid };
                    lemma_outgoing_well(set, t, back);
                    lemma_applies_none(out, t.log, s.applied as int, t.applied as int);
                }
            } else {
                lemma_applies_none(out, t.log, s.applied as int, t.applied as int);
            }
        },
        MessageModel::InstallSnapshot(x) => lemma_install_well(mid, x),
        MessageModel::InstallSnapshotReply(x) => {
            let slot = crate::model::slot_of(mid.progress, x.from);
            crate::upkeep::lemma_slot_of(mid.progress, x.from);
            if mid.role == Role::Leader && x.term == mid.term && slot < mid.progress.len() {
                lemma_acknowledged_well(mid, slot, x.last_index);
            } else {
                lemma_applies_none(out, t.log, s.applied as int, t.applied as int);
            }
        },
        MessageModel::TimeoutNow(x) => {
            if !(x.term < mid.term || mid.role == Role::Leader || !mid.is_voter()) {
                lemma_election_well(mid, true);
            } else {
                lemma_applies_none(out, t.log, s.applied as int, t.applied as int);
            }
        },
    }
}

/// A change of the voters is in order.
proof fn lemma_change_well(s: NodeModel, ids: Seq<NodeId>)
    requires
        s.wf(),
        s.role == Role::Leader,
        s.transfer is None,
        s.log.last_index() + 1 < u64::MAX,
        crate::members::ascending(ids),
        ids.len() > 0,
    ensures
        hands_out_well(s, s.on_change(ids).0, s.on_change(ids).1),
{
    crate::upkeep::lemma_changed(s, ids);
    let mid = s.changed(ids);
    let (next, out) = mid.broadcast_and_committed();
    let news = seq![ActionModel::MembershipChanged { members: ids }];
    lemma_broadcast_and_committed_well(mid);
    lemma_sends_both(next, news, out);
    let none = Seq::<ActionModel>::empty();
    lemma_applies_between(news, out, none, next.log, s.applied as int, next.applied as int);
    assert(news + out + none =~= news + out);
}

/// Every step hands out what it does in order.
proof fn lemma_step_well(s: NodeModel, event: EventModel)
    requires
        s.wf(),
        s.has_room_for(event),
    ensures
        s.step(event) matches StepModel::Moved(t, out) ==> hands_out_well(s, t, out),
{
    match event {
        EventModel::Tick => lemma_tick_well(s),
        EventModel::Message(m) => lemma_message_well(s, m),
        EventModel::Propose(command) => {
            if s.refusal() is None {
                let entry = s.next_command(command);
                crate::upkeep::lemma_command_appended(s, command);
                let mid = s.appended(entry);
                lemma_broadcast_and_committed_well(mid);
            }
        },
        EventModel::Snapshot { index, data } => {
            let t = s.on_snapshot(index, data);
            lemma_applies_none(Seq::empty(), t.log, s.applied as int, t.applied as int);
        },
        EventModel::AddServer(id) => {
            if s.starts_change(event) {
                crate::members::lemma_insert_id(s.members, id);
                lemma_change_well(s, crate::members::insert_id(s.members, id));
            } else {
                lemma_applies_none(Seq::empty(), s.log, s.applied as int, s.applied as int);
            }
        },
        EventModel::RemoveServer(id) => {
            if s.starts_change(event) {
                crate::members::lemma_without(s.members, id);
                lemma_change_well(s, crate::members::without(s.members, id));
            } else {
                lemma_applies_none(Seq::empty(), s.log, s.applied as int, s.applied as int);
            }
        },
        EventModel::TransferLeadership(target) => {
            let slot = crate::model::slot_of(s.progress, target);
            crate::upkeep::lemma_slot_of(s.progress, target);
            if s.role == Role::Leader && slot < s.progress.len() {
                let next = NodeModel { transfer: Some(target), election_elapsed: 0, ..s };
                assert(s.others().contains(target)) by {
                    assert(s.progress[slot].peer == s.others()[slot]);
                }
                assert(next.wf());
                if next.progress[slot].matched == next.log.last_index() {
                    let out = next.handover(slot);
                    lemma_applies_none(out, next.log, s.applied as int, next.applied as int);
                } else {
                    let (sent, out) = next.sent_to(slot);
                    lemma_outgoing_well(next, sent, next.progress[slot]);
                    lemma_applies_none(out, sent.log, s.applied as int, sent.applied as int);
                }
            } else {
                lemma_applies_none(Seq::empty(), s.log, s.applied as int, s.applied as int);
            }
        },
    }
}

/// A step hands the state machine every command newly applied, each once, in order
/// of index, and no configuration. Since the index applied never falls back, no
/// index is handed out twice.
pub proof fn law_commands_are_applied_once_and_in_order(s: NodeModel, event: EventModel)
    requires
        s.wf(),
        s.has_room_for(event),
    ensures
        s.step(event) matches StepModel::Moved(t, out) ==> applies_well(
            out,
            t.log,
            s.applied as int,
            t.applied as int,
        ),
{
    lemma_step_well(s, event);
}

/// A vote is on record before it is announced.
pub proof fn law_a_vote_is_recorded_before_it_is_announced(
    s: NodeModel,
    event: EventModel,
    i: int,
)
    requires
        s.wf(),
        s.has_room_for(event),
    ensures
        s.step(event) matches StepModel::Moved(t, out) ==> 0 <= i < out.len() ==> (
        out[i] matches ActionModel::Send { to, message: MessageModel::RequestVoteReply(r) }
            ==> r.vote_granted ==> t.log.hard == (HardState {
            term: r.term,
            voted_for: Some(to),
        })),
{
    lemma_step_well(s, event);
}

/// No batch is longer than configured.
pub proof fn law_batches_are_bounded(s: NodeModel, event: EventModel, i: int)
    requires
        s.wf(),
        s.has_room_for(event),
    ensures
        s.step(event) matches StepModel::Moved(t, out) ==> 0 <= i < out.len() ==> (
        out[i] matches ActionModel::Send { to, message: MessageModel::AppendEntries(a) }
            ==> a.entries.len() <= s.cfg.max_batch),
{
    lemma_step_well(s, event);
    lemma_step_onward(s, event);
}

/// Only the target of a transfer is told to take over, and only once it is known to
/// have the leader's whole log.
pub proof fn law_only_a_target_that_has_caught_up_takes_over(s: NodeModel, event: EventModel, i: int)
    requires
        s.wf(),
        s.has_room_for(event),
    ensures
        s.step(event) matches StepModel::Moved(t, out) ==> 0 <= i < out.len() ==> (
        out[i] matches ActionModel::Send { to, message: MessageModel::TimeoutNow(x) }
            ==> t.transfer == Some(to) && exists|j: int|
            0 <= j < t.progress.len() && (#[trigger] t.progress[j]).peer == to
                && t.progress[j].matched == t.log.last_index()),
{
    lemma_step_well(s, event);
}

// ---- rules on single events ----------------------------------------------

/// A probe and its answer change nothing: no term is adopted and no vote is cast.
pub proof fn law_probes_change_nothing(s: NodeModel, p: PreVote, r: PreVoteReply)
    ensures
        s.step(EventModel::Message(MessageModel::PreVote(p))) == StepModel::Moved(
            s,
            s.on_pre_vote(p),
        ),
        s.step(EventModel::Message(MessageModel::PreVoteReply(r))) == StepModel::Moved(
            s,
            Seq::empty(),
        ),
{
}

/// A vote would be granted in a probe exactly where it would be granted for real
/// by a node whose vote is free, unless the node recognises an active leader.
pub proof fn law_a_probe_is_granted_as_a_vote_would_be(s: NodeModel, p: PreVote)
    requires
        s.voted_for is None,
    ensures
        s.on_pre_vote(p)[0] matches ActionModel::Send {
            to,
            message: MessageModel::PreVoteReply(r),
        } && to == p.candidate && r.vote_granted == (!s.leader_is_active() && s.grants(
            RequestVote {
                term: p.term,
                candidate: p.candidate,
                last_log_index: p.last_log_index,
                last_log_term: p.last_log_term,
                force: false,
            },
        )),
{
}

/// An active leader is not unseated: a request for a vote is ignored as long as the
/// node recognises one, unless it is forced.
pub proof fn law_an_active_leader_is_not_unseated(s: NodeModel, m: RequestVote)
    requires
        s.leader_is_active(),
        !m.force,
    ensures
        s.step(EventModel::Message(MessageModel::RequestVote(m))) == StepModel::Moved(
            s,
            Seq::empty(),
        ),
{
}

/// A reply of another term is ignored, except that a later term is entered.
pub proof fn law_replies_of_other_terms_are_ignored(s: NodeModel, m: MessageModel)
    requires
        m is RequestVoteReply || m is AppendEntriesReply || m is InstallSnapshotReply,
        m.term() != s.term,
    ensures
        s.step(EventModel::Message(m)) == StepModel::Moved(s.seen(m.term()), Seq::empty()),
{
}

/// Whatever a message of a later term asks, the node first enters that term, as a
/// follower with its vote free. Probes, and requests for votes that an active
/// leader makes it ignore, are the exception.
pub proof fn law_a_later_term_is_entered(s: NodeModel, m: MessageModel)
    requires
        s.wf(),
        s.has_room_for(EventModel::Message(m)),
        m.term() > s.term,
        !(m is PreVote),
        !(m is PreVoteReply),
        m matches MessageModel::RequestVote(x) ==> x.force || !s.leader_is_active(),
    ensures
        s.seen(m.term()).role == Role::Follower,
        s.seen(m.term()).term == m.term(),
        s.seen(m.term()).voted_for is None,
        s.on_message(m) == s.seen(m.term()).on_message(m),
        s.on_message(m).0.term >= m.term(),
{
    let mid = s.seen(m.term());
    crate::upkeep::lemma_seen(s, m.term());
    assert(mid.seen(m.term()) == mid);
    lemma_message_onward(mid, m);
}

/// Only a leader that is not handing over takes a client's request. A refusal names
/// the leader that the node knows, or the target of the transfer, and leaves the
/// node as it is. One change of the voters is in flight at a time.
pub proof fn law_who_takes_a_request(s: NodeModel, command: Seq<u8>, id: NodeId)
    ensures
        s.role != Role::Leader ==> s.step(EventModel::Propose(command)) == StepModel::Refused(
            ErrorModel::NotLeader { leader: s.leader },
        ),
        s.role == Role::Leader && s.transfer is Some ==> s.step(EventModel::Propose(command))
            == StepModel::Refused(ErrorModel::NotLeader { leader: s.transfer }),
        s.role == Role::Leader && s.transfer is None ==> s.step(
            EventModel::Propose(command),
        ) is Moved,
        s.refusal() is None && s.change_in_flight() ==> s.step(EventModel::AddServer(id))
            == StepModel::Refused(ErrorModel::ConfigInProgress) && s.step(
            EventModel::RemoveServer(id),
        ) == StepModel::Refused(ErrorModel::ConfigInProgress),
        s.refusal() is None && !s.change_in_flight() ==> s.step(EventModel::AddServer(id)) is Moved
            && s.step(EventModel::RemoveServer(id)) is Moved,
        s.role != Role::Leader ==> s.step(EventModel::TransferLeadership(id))
            == StepModel::Refused(ErrorModel::NotLeader { leader: s.leader }),
        s.role == Role::Leader ==> s.step(EventModel::TransferLeadership(id)) is Moved,
{
}

/// A snapshot beyond what is applied, or not past the one there is, changes
/// nothing; any other discards applied entries only.
pub proof fn law_only_applied_entries_are_compacted(s: NodeModel, index: Index, data: Seq<u8>)
    requires
        s.wf(),
    ensures
        index > s.applied || index <= s.log.base_index() ==> s.on_snapshot(index, data) == s,
        s.log.base_index() < index <= s.applied ==> {
            let t = s.on_snapshot(index, data);
            &&& t.log.base_index() == index
            &&& t.log.last_index() == s.log.last_index()
            &&& forall|i: int|
                index < i <= s.log.last_index() ==> #[trigger] t.log.entry(i) == s.log.entry(i)
            &&& t.voters() == s.voters()
        },
{
    if s.log.base_index() < index <= s.applied {
        crate::upkeep::lemma_voters_after_compaction(s, index, data);
    }
}

/// A node comes back with the term, the vote and the log that it had, with what its
/// snapshot covers applied and the rest still to be committed again.
pub proof fn law_a_restart_resumes(s: NodeModel, cfg: ConfigModel)
    requires
        s.wf(),
        cfg.usable(),
    ensures
        ({
            let t = NodeModel::initial(cfg, s.log);
            &&& t.wf()
            &&& t.role == Role::Follower
            &&& t.term == s.term
            &&& t.voted_for == s.voted_for
            &&& t.log == s.log
            &&& t.commit == s.log.base_index()
            &&& t.applied == s.log.base_index()
            &&& cfg == s.cfg ==> t.members == s.members
        }),
{
    crate::upkeep::lemma_initial(cfg, s.log);
}

/// A leader commits by counting only entries of its own term.
pub proof fn law_a_leader_counts_only_its_own_entries(s: NodeModel)
    requires
        s.wf(),
    ensures
        s.committed().0.commit > s.commit ==> {
            let index = s.committed().0.commit as int;
            &&& s.log.term_at(index) == Some(s.term)
            &&& s.holders(index).len() >= s.quorum()
        },
{
    crate::upkeep::lemma_commit_target(s, s.log.last_index());
}

/// A rejection makes the leader probe further back, but never at or below what the
/// voter is known to have. Only a voter that says it is ahead of where it was
/// probed is probed there instead, as far as the leader's log reaches.
pub proof fn law_a_rejection_moves_the_probe_back(s: NodeModel, slot: int, m: AppendEntriesReply)
    requires
        s.wf(),
        s.role == Role::Leader,
        0 <= slot < s.progress.len(),
    ensures
        ({
            let p = s.progress[slot];
            &&& p.matched < s.backed_off(p, m)
            &&& m.conflict_index <= p.next && p.next > p.matched + 1 ==> s.backed_off(p, m)
                < p.next
            &&& m.conflict_term == 0 && p.next < m.conflict_index <= s.log.last_index() + 1
                ==> s.backed_off(p, m) == m.conflict_index
        }),
{
    crate::upkeep::lemma_backed_off(s, s.progress[slot], m);
}

/// An append of a leader's term, or a later one, has the node follow its sender,
/// whatever becomes of the entries. One of an earlier term changes nothing, and is
/// rejected with the term the node is in.
pub proof fn law_an_append_names_the_leader(s: NodeModel, m: AppendModel)
    requires
        s.wf(),
    ensures
        ({
            let (t, out) = s.on_message(MessageModel::AppendEntries(m));
            if m.term >= s.term {
                &&& t.role == Role::Follower
                &&& t.leader == Some(m.leader)
                &&& t.term == m.term
                &&& t.election_elapsed == 0
                &&& t.leader_elapsed == 0
            } else {
                t == s && out == s.append_reply(m.leader, false, 0, 0, 0)
            }
        }),
{
    crate::upkeep::lemma_seen(s, m.term);
    lemma_append_onward(s.seen(m.term), m);
}

/// An append without entries is accepted exactly if its sender's term is not an
/// earlier one and the log has the entry that it names as the one before, and is
/// then answered with that entry's index. The answer is the last action, and the
/// only message.
pub proof fn law_a_heartbeat_checks_the_log(s: NodeModel, m: AppendModel)
    requires
        s.wf(),
        m.entries.len() == 0,
    ensures
        ({
            let (t, out) = s.on_message(MessageModel::AppendEntries(m));
            let prev = m.prev_log_index as int;
            let accepted = m.term >= s.term && (prev == 0 || s.log.term_at(prev) == Some(
                m.prev_log_term,
            ));
            &&& out.len() > 0
            &&& out.last() matches ActionModel::Send {
                to,
                message: MessageModel::AppendEntriesReply(r),
            }
            &&& to == m.leader
            &&& r.term == t.term
            &&& r.success == accepted
            &&& r.match_index == (if accepted {
                prev
            } else {
                0
            })
            &&& forall|i: int| 0 <= i < out.len() - 1 ==> !(#[trigger] out[i] is Send)
            &&& t.log.entries == s.log.entries
        }),
{
    crate::upkeep::lemma_seen(s, m.term);
    let mid = s.seen(m.term);
    let here = mid.recognising(m.leader);
    let fresh = here.log.uncovered(m.prev_log_index as int, m.entries);
    assert(fresh =~= Seq::<EntryModel>::empty());
    assert(here.log.merge(fresh) == here.log);
    if m.term >= s.term && here.log.agrees_at(m.prev_log_index as int, m.prev_log_term) {
        crate::upkeep::lemma_recognising(mid, m.leader);
        assert(NodeModel { log: here.log.merge(fresh), ..here }.reconfigured().0 == here);
        let raised = here.raised(m.leader_commit, m.prev_log_index as int);
        lemma_run_applies_well(raised.log, raised.applied as int, raised.commit as int);
    }
}

/// While no configuration is in its log, a node asks for votes, and sends as a
/// leader, in the order of the peers that it was configured with.
pub proof fn law_peers_are_asked_in_their_order(s: NodeModel, force: bool)
    requires
        s.wf(),
        s.log.voters_at(s.log.last_index()) is None,
        s.cfg.peers.no_duplicates(),
        !s.cfg.peers.contains(s.cfg.id),
        s.cfg.peers.len() > 0,
    ensures
        s.others() == s.cfg.peers,
        s.election(force) == (
            s.campaigning(),
            Seq::new(
                s.cfg.peers.len(),
                |i: int|
                    ActionModel::Send {
                        to: s.cfg.peers[i],
                        message: s.campaigning().vote_request(force),
                    },
            ),
        ),
{
    let peers = s.cfg.peers;
    crate::members::lemma_without_absent(peers, s.cfg.id);
    crate::members::lemma_distinct_of_distinct(peers);
    crate::members::lemma_sorted_ids(peers.push(s.cfg.id));
    assert(peers.push(s.cfg.id)[0] == peers[0]);
    assert(peers.push(s.cfg.id)[peers.len() as int] == s.cfg.id);
    assert(s.members.contains(peers[0]) && s.members.contains(s.cfg.id));
    assert(peers.contains(peers[0]));
    assert(s.campaigning().others() == peers);
    assert(s.campaigning().quorum() > 1);
    assert(s.election(force).1 =~= Seq::new(
        peers.len(),
        |i: int|
            ActionModel::Send { to: peers[i], message: s.campaigning().vote_request(force) },
    ));
}

/// What restarts the election timer: a start, an election, a vote granted, and a
/// message of a recognised leader.
pub proof fn law_what_restarts_the_election_timer(s: NodeModel, event: EventModel)
    requires
        s.wf(),
        s.has_room_for(event),
    ensures
        NodeModel::initial(s.cfg, s.log).election_elapsed == 0,
        s.step(event) matches StepModel::Moved(t, _) ==> {
            &&& s.stands_on(event) ==> t.election_elapsed == 0
            &&& event matches EventModel::Message(MessageModel::RequestVote(m)) ==> (m.force
                || !s.leader_is_active()) && s.seen(m.term).grants(m) ==> t.election_elapsed == 0
            &&& event matches EventModel::Message(MessageModel::AppendEntries(m)) ==> m.term
                >= s.term ==> t.election_elapsed == 0
            &&& event matches EventModel::Message(MessageModel::InstallSnapshot(m)) ==> m.term
                >= s.term ==> t.election_elapsed == 0
        },
{
}

/// A candidate knows no leader. A vote granted in the present term leaves the
/// leader that is known as it is.
pub proof fn law_votes_and_the_known_leader(s: NodeModel, event: EventModel)
    requires
        s.wf(),
        s.has_room_for(event),
    ensures
        s.step(event) matches StepModel::Moved(t, _) ==> {
            &&& t.role == Role::Candidate ==> t.leader is None
            &&& event matches EventModel::Message(MessageModel::RequestVote(m)) ==> m.term
                <= s.term ==> t.leader == s.leader
        },
{
    crate::upkeep::law_every_step_keeps_the_node_well_formed(s, event);
}

/// What holds of who stands and who leads: a candidate is a voter, and a leader
/// that is not one only sees the change that removed it through.
pub open spec fn entitled(s: NodeModel) -> bool {
    &&& s.role == Role::Candidate ==> s.is_voter()
    &&& s.role == Role::Leader && !s.is_voter() ==> s.change_in_flight()
}

/// A leader that commits stays entitled, or steps down.
proof fn lemma_committed_entitled(s: NodeModel)
    requires
        s.wf(),
        entitled(s),
    ensures
        entitled(s.committed().0),
{
}

/// A broadcast and commits leave a leader entitled.
proof fn lemma_broadcast_and_committed_entitled(s: NodeModel)
    requires
        s.wf(),
        s.role == Role::Leader,
        entitled(s),
    ensures
        entitled(s.broadcast_and_committed().0),
{
    crate::upkeep::lemma_broadcast(s);
    lemma_committed_entitled(s.broadcast().0);
}

/// An election leaves a voter entitled.
proof fn lemma_election_entitled(s: NodeModel, force: bool)
    requires
        s.wf(),
        s.term < u64::MAX,
        s.is_voter(),
    ensures
        entitled(s.election(force).0),
{
    let mid = s.campaigning();
    crate::upkeep::lemma_campaigning(s);
    if 1 >= mid.quorum() {
        crate::upkeep::lemma_leading(mid);
        lemma_broadcast_and_committed_entitled(mid.leading());
    }
}

/// An acknowledgement leaves a leader entitled.
proof fn lemma_acknowledged_entitled(s: NodeModel, slot: int, index: Index)
    requires
        s.wf(),
        s.role == Role::Leader,
        0 <= slot < s.progress.len(),
        entitled(s),
    ensures
        entitled(s.acknowledged(slot, index).0),
{
    if index <= s.log.last_index() {
        let known = s.progress[slot].agreeing(index);
        crate::upkeep::lemma_progress_update(s, slot, known);
        lemma_committed_entitled(s.knowing(slot, known));
    }
}

/// A new entry for a set of voters that a leader may no longer be in leaves it
/// entitled.
proof fn lemma_change_entitled(s: NodeModel, ids: Seq<NodeId>)
    requires
        s.wf(),
        s.role == Role::Leader,
        s.transfer is None,
        s.log.last_index() + 1 < u64::MAX,
        crate::members::ascending(ids),
        ids.len() > 0,
    ensures
        entitled(s.on_change(ids).0),
{
    let entry = s.next_config(ids);
    crate::upkeep::lemma_voters_after_config(s, ids);
    crate::upkeep::lemma_changed(s, ids);
    let mid = s.changed(ids);
    crate::types::law_config_entry_carries_its_members(
        s.term,
        (s.log.last_index() + 1) as Index,
        ids,
    );
    crate::members::lemma_sorted_ids_of_ascending(ids);
    assert(mid.log.entries.last() == entry);
    assert(crate::model::voters_in(entry) == Some(ids));
    assert(mid.log.config_index() == mid.log.last_index());
    lemma_broadcast_and_committed_entitled(mid);
}

/// A message leaves a node entitled.
proof fn lemma_message_entitled(s: NodeModel, m: MessageModel)
    requires
        s.wf(),
        s.has_room_for(EventModel::Message(m)),
        entitled(s),
    ensures
        entitled(s.on_message(m).0),
{
    let mid = s.seen(m.term());
    crate::upkeep::lemma_seen(s, m.term());
    assert(entitled(mid));
    match m {
        MessageModel::RequestVoteReply(x) => {
            if mid.role == Role::Candidate && x.term == mid.term && x.vote_granted
                && mid.members.contains(x.from) && !mid.votes.contains(x.from) {
                let counted = mid.counting(x.from);
                assert(counted.wf());
                crate::upkeep::lemma_leading(counted);
                lemma_broadcast_and_committed_entitled(counted.leading());
            }
        },
        MessageModel::AppendEntries(x) => {
            lemma_append_onward(mid, x);
        },
        MessageModel::InstallSnapshot(x) => {
            lemma_install_onward(mid, x);
        },
        MessageModel::AppendEntriesReply(x) => {
            let slot = crate::model::slot_of(mid.progress, x.from);
            crate::upkeep::lemma_slot_of(mid.progress, x.from);
            if mid.role == Role::Leader && x.term == mid.term && slot < mid.progress.len()
                && x.success {
                lemma_acknowledged_entitled(mid, slot, x.match_index);
            }
        },
        MessageModel::InstallSnapshotReply(x) => {
            let slot = crate::model::slot_of(mid.progress, x.from);
            crate::upkeep::lemma_slot_of(mid.progress, x.from);
            if mid.role == Role::Leader && x.term == mid.term && slot < mid.progress.len() {
                lemma_acknowledged_entitled(mid, slot, x.last_index);
            }
        },
        MessageModel::TimeoutNow(x) => {
            if !(x.term < mid.term || mid.role == Role::Leader || !mid.is_voter()) {
                lemma_election_entitled(mid, true);
            }
        },
        _ => {},
    }
}

/// A node that starts out as a follower, as every node does, only ever stands for
/// election as a voter. A leader that a change removes leads on until that change
/// is committed, and no longer.
pub proof fn law_only_voters_stand_and_removed_leaders_step_down(s: NodeModel, event: EventModel)
    requires
        s.wf(),
        s.has_room_for(event),
        entitled(s),
    ensures
        s.step(event) matches StepModel::Moved(t, _) ==> entitled(t),
{
    match event {
        EventModel::Tick => {
            if s.role != Role::Leader {
                let mid = s.ticked();
                if mid.election_due() {
                    assert(mid.wf());
                    lemma_election_entitled(mid, false);
                }
            }
        },
        EventModel::Message(m) => lemma_message_entitled(s, m),
        EventModel::Propose(command) => {
            if s.refusal() is None {
                let entry = s.next_command(command);
                crate::upkeep::lemma_command_appended(s, command);
                let mid = s.appended(entry);
                assert(mid.log.entries.drop_last() =~= s.log.entries);
                assert(mid.log.entries.last() == entry);
                assert(crate::model::config_end(mid.log.entries) == crate::model::config_end(
                    s.log.entries,
                ));
                lemma_broadcast_and_committed_entitled(mid);
            }
        },
        EventModel::Snapshot { index, data } => {
            if s.log.base_index() < index <= s.applied {
                let t = s.on_snapshot(index, data);
                crate::upkeep::lemma_config_end(s.log.entries);
                let e = crate::model::config_end(s.log.entries);
                let cut = index - s.log.base_index();
                assert(t.log.entries == s.log.entries.skip(cut));
                if s.change_in_flight() {
                    assert(e > cut);
                    assert(t.log.entries[e - cut - 1] == s.log.entries[e - 1]);
                    assert forall|i: int| e - cut <= i < t.log.entries.len() implies
                        crate::model::voters_in(#[trigger] t.log.entries[i]) is None by {
                        assert(t.log.entries[i] == s.log.entries[i + cut]);
                    }
                    crate::upkeep::lemma_config_end_is(t.log.entries, e - cut);
                }
            }
        },
        EventModel::AddServer(id) => {
            if s.starts_change(event) {
                crate::members::lemma_insert_id(s.members, id);
                lemma_change_entitled(s, crate::members::insert_id(s.members, id));
            }
        },
        EventModel::RemoveServer(id) => {
            if s.starts_change(event) {
                crate::members::lemma_without(s.members, id);
                lemma_change_entitled(s, crate::members::without(s.members, id));
            }
        },
        EventModel::TransferLeadership(target) => {},
    }
}

} // verus!
