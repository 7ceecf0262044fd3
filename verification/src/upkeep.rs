//! Every transition keeps a node well formed.

use crate::config::ConfigModel;
use crate::log::LogModel;
use crate::message::{AppendEntriesReply, AppendModel, InstallModel, MessageModel, RequestVote};
use crate::model::{EventModel, NodeModel, Progress, StepModel};
use crate::types::{EntryModel, Index, NodeId, Role, SnapshotModel, Term};
use vstd::prelude::*;

verus! {

/// `slot_of` finds a peer wherever it is tracked.
pub proof fn lemma_slot_of(progress: Seq<Progress>, peer: NodeId)
    ensures
        0 <= crate::model::slot_of(progress, peer) <= progress.len(),
        crate::model::slot_of(progress, peer) < progress.len() ==> progress[crate::model::slot_of(
            progress,
            peer,
        )].peer == peer,
        forall|i: int|
            0 <= i < progress.len() && (#[trigger] progress[i]).peer == peer
                ==> crate::model::slot_of(progress, peer) <= i,
    decreases progress.len(),
{
    if progress.len() > 0 {
        let short = progress.drop_last();
        lemma_slot_of(short, peer);
        assert forall|i: int| 0 <= i < progress.len() && (#[trigger] progress[i]).peer
            == peer implies crate::model::slot_of(progress, peer) <= i by {
            if i < short.len() {
                assert(short[i].peer == peer);
            }
        }
        let at = crate::model::slot_of(short, peer);
        if at < short.len() {
            assert(short[at] == progress[at]);
        }
    }
}

/// Where the last configuration of a run of entries lies.
pub proof fn lemma_config_end(entries: Seq<EntryModel>)
    ensures
        0 <= crate::model::config_end(entries) <= entries.len(),
        crate::model::config_end(entries) > 0 ==> crate::model::voters_in(
            entries[crate::model::config_end(entries) - 1],
        ) is Some,
        forall|i: int|
            crate::model::config_end(entries) <= i < entries.len() ==> crate::model::voters_in(
                #[trigger] entries[i],
            ) is None,
    decreases entries.len(),
{
    if entries.len() > 0 && crate::model::voters_in(entries.last()) is None {
        let short = entries.drop_last();
        lemma_config_end(short);
        assert forall|i: int|
            crate::model::config_end(entries) <= i < entries.len() implies crate::model::voters_in(
            #[trigger] entries[i],
        ) is None by {
            if i < short.len() {
                assert(short[i] == entries[i]);
            }
        }
    }
}

/// The last configuration of a run is found from any description of it.
pub proof fn lemma_config_end_is(entries: Seq<EntryModel>, end: int)
    requires
        0 <= end <= entries.len(),
        end > 0 ==> crate::model::voters_in(entries[end - 1]) is Some,
        forall|i: int|
            end <= i < entries.len() ==> crate::model::voters_in(#[trigger] entries[i]) is None,
    ensures
        crate::model::config_end(entries) == end,
{
    lemma_config_end(entries);
    let e = crate::model::config_end(entries);
    if e < end {
        assert(crate::model::voters_in(entries[end - 1]) is None);
    }
    if end < e {
        assert(crate::model::voters_in(entries[e - 1]) is None);
    }
}

/// The whole of a log lies between its base and its end.
pub proof fn lemma_between_all(log: LogModel)
    requires
        log.wf(),
    ensures
        log.between(log.base_index() + 1, log.last_index()) == log.entries,
{
    assert(log.between(log.base_index() + 1, log.last_index()) =~= log.entries);
}

/// What lies in a range of indices that the log holds.
pub proof fn lemma_between(log: LogModel, from: int, to: int)
    requires
        log.wf(),
        log.base_index() < from,
        to <= log.last_index(),
        from <= to + 1,
    ensures
        log.between(from, to).len() == to + 1 - from,
        forall|i: int|
            0 <= i < to + 1 - from ==> #[trigger] log.between(from, to)[i] == log.at(from + i),
{
}

/// There is always a voter, and the voters are in ascending order.
pub proof fn lemma_voters(s: NodeModel, index: int)
    ensures
        s.voters_at(index).len() > 0,
        crate::members::ascending(s.voters_at(index)),
{
    let upto = s.log.between(s.log.base_index() + 1, index);
    lemma_config_end(upto);
    let boot = s.cfg.peers.push(s.cfg.id);
    crate::members::lemma_sorted_ids(boot);
    assert(boot[boot.len() - 1] == s.cfg.id);
    assert(boot.contains(s.cfg.id));
    assert(crate::members::sorted_ids(boot).contains(s.cfg.id));
    let end = crate::model::config_end(upto);
    if end > 0 {
        let ids = upto[end - 1].members()->0;
        crate::members::lemma_sorted_ids(ids);
        assert(ids.contains(ids[0]));
        assert(crate::members::sorted_ids(ids).contains(ids[0]));
    } else if let Some(snap) = s.log.snapshot {
        if snap.config.len() > 0 {
            crate::members::lemma_sorted_ids(snap.config);
            assert(snap.config.contains(snap.config[0]));
            assert(crate::members::sorted_ids(snap.config).contains(snap.config[0]));
        }
    }
}

/// A command at the end of the log leaves the voters as they are.
pub proof fn lemma_voters_after_command(s: NodeModel, entry: EntryModel)
    requires
        s.log.wf(),
        s.log.continued_by(seq![entry]),
        crate::model::voters_in(entry) is None,
    ensures
        s.appended(entry).log.wf(),
        s.appended(entry).voters() == s.voters(),
{
    crate::log::law_log_changes_keep_indices_contiguous(
        s.log,
        seq![entry],
        1,
        s.log.hard,
        SnapshotModel { index: 0, term: 0, config: Seq::empty(), data: Seq::empty() },
    );
    let t = s.appended(entry);
    lemma_between_all(s.log);
    lemma_between_all(t.log);
    lemma_config_end(s.log.entries);
    let end = crate::model::config_end(s.log.entries);
    assert forall|i: int| end <= i < t.log.entries.len() implies crate::model::voters_in(
        #[trigger] t.log.entries[i],
    ) is None by {
        if i < s.log.entries.len() {
            assert(t.log.entries[i] == s.log.entries[i]);
        }
    }
    lemma_config_end_is(t.log.entries, end);
}

/// A configuration at the end of the log puts its voters in place.
pub proof fn lemma_voters_after_config(s: NodeModel, ids: Seq<NodeId>)
    requires
        s.log.wf(),
        s.log.last_index() < u64::MAX,
        crate::members::ascending(ids),
        ids.len() > 0,
    ensures
        s.log.continued_by(seq![s.next_config(ids)]),
        s.appended(s.next_config(ids)).log.wf(),
        s.appended(s.next_config(ids)).voters() == ids,
{
    let entry = s.next_config(ids);
    crate::log::law_log_changes_keep_indices_contiguous(
        s.log,
        seq![entry],
        1,
        s.log.hard,
        SnapshotModel { index: 0, term: 0, config: Seq::empty(), data: Seq::empty() },
    );
    let t = s.appended(entry);
    crate::members::lemma_sorted_ids_of_ascending(ids);
    crate::types::lemma_members_round_trip(ids);
    assert(crate::model::voters_in(entry) == Some(ids));
    lemma_between_all(t.log);
    assert(t.log.entries.last() == entry);
    lemma_config_end_is(t.log.entries, t.log.entries.len() as int);
}

/// Compacting behind an applied index, with the voters in effect there on
/// record, leaves the voters as they are.
#[verifier::rlimit(30)]
pub proof fn lemma_voters_after_compaction(s: NodeModel, index: Index, data: Seq<u8>)
    requires
        s.log.wf(),
        s.log.base_index() < index <= s.log.last_index(),
    ensures
        ({
            let snap = SnapshotModel {
                index,
                term: s.log.term_at(index as int)->0,
                config: s.voters_at(index as int),
                data,
            };
            let t = NodeModel { log: s.log.compact(snap), ..s };
            &&& t.log.wf()
            &&& t.voters() == s.voters()
            &&& t.log.base_index() == index
            &&& t.log.last_index() == s.log.last_index()
            &&& t.log.hard == s.log.hard
        }),
{
    let snap = SnapshotModel {
        index,
        term: s.log.term_at(index as int)->0,
        config: s.voters_at(index as int),
        data,
    };
    crate::log::law_log_changes_keep_indices_contiguous(
        s.log,
        Seq::empty(),
        1,
        s.log.hard,
        snap,
    );
    let t = NodeModel { log: s.log.compact(snap), ..s };
    let k = index - s.log.base_index();
    assert(t.log.entries == s.log.entries.skip(k));
    lemma_between_all(s.log);
    lemma_between_all(t.log);
    lemma_voters(s, index as int);
    let upto = s.log.between(s.log.base_index() + 1, index as int);
    assert(upto =~= s.log.entries.take(k));
    lemma_config_end(s.log.entries);
    let end = crate::model::config_end(s.log.entries);
    if end > k {
        assert forall|i: int| end - k <= i < t.log.entries.len() implies crate::model::voters_in(
            #[trigger] t.log.entries[i],
        ) is None by {
            assert(t.log.entries[i] == s.log.entries[i + k]);
        }
        assert(t.log.entries[end - k - 1] == s.log.entries[end - 1]);
        lemma_config_end_is(t.log.entries, end - k);
    } else {
        assert forall|i: int| 0 <= i < t.log.entries.len() implies crate::model::voters_in(
            #[trigger] t.log.entries[i],
        ) is None by {
            assert(t.log.entries[i] == s.log.entries[i + k]);
        }
        lemma_config_end_is(t.log.entries, 0);
        assert forall|i: int| end <= i < upto.len() implies crate::model::voters_in(
            #[trigger] upto[i],
        ) is None by {
            assert(upto[i] == s.log.entries[i]);
        }
        if end > 0 {
            assert(upto[end - 1] == s.log.entries[end - 1]);
        }
        lemma_config_end_is(upto, end);
        assert(s.voters_at(index as int) == s.voters());
        crate::members::lemma_sorted_ids_of_ascending(s.voters());
    }
}

/// A drawn timeout lies within its bounds.
pub proof fn lemma_timer_reset(s: NodeModel)
    requires
        s.wf(),
    ensures
        s.timer_reset().wf(),
{
    crate::rng::law_draw_is_in_range(
        s.rng,
        s.cfg.election_timeout_min,
        s.cfg.election_timeout_max,
    );
    assert(s.timer_reset().voters() == s.voters());
    assert(s.timer_reset().others() == s.others());
}

/// The voters sent to are the voters but for the node itself, each once.
pub proof fn lemma_others(s: NodeModel)
    requires
        crate::members::ascending(s.members),
    ensures
        s.others().no_duplicates(),
        forall|x: NodeId| #[trigger]
            s.others().contains(x) <==> (s.members.contains(x) && x != s.cfg.id),
{
    crate::members::lemma_without(s.members, s.cfg.id);
    if s.members == NodeModel::bootstrap(s.cfg) {
        let peers = crate::members::without(s.cfg.peers, s.cfg.id);
        let all = s.cfg.peers.push(s.cfg.id);
        crate::members::lemma_without_holds(s.cfg.peers, s.cfg.id);
        crate::members::lemma_distinct(peers);
        crate::members::lemma_sorted_ids(all);
        assert forall|x: NodeId| #[trigger]
            s.others().contains(x) <==> (s.members.contains(x) && x != s.cfg.id) by {
            assert(s.others().contains(x) <==> peers.contains(x));
            assert(peers.contains(x) <==> s.cfg.peers.contains(x) && x != s.cfg.id);
            assert(s.members.contains(x) <==> all.contains(x));
            if s.cfg.peers.contains(x) {
                let k = choose|k: int| 0 <= k < s.cfg.peers.len() && s.cfg.peers[k] == x;
                assert(all[k] == x);
            }
            if all.contains(x) && x != s.cfg.id {
                let k = choose|k: int| 0 <= k < all.len() && all[k] == x;
                assert(s.cfg.peers[k] == x);
            }
        }
    }
}

/// Every voter but the leader itself is tracked.
pub proof fn lemma_every_other_voter_is_tracked(s: NodeModel, member: NodeId)
    requires
        s.wf(),
        s.role == Role::Leader,
        s.members.contains(member),
        member != s.cfg.id,
    ensures
        crate::model::slot_of(s.progress, member) < s.progress.len(),
        s.progress[crate::model::slot_of(s.progress, member)].peer == member,
{
    lemma_others(s);
    assert(s.others().contains(member));
    let k = choose|k: int| 0 <= k < s.others().len() && s.others()[k] == member;
    assert(s.progress[k].peer == member);
    lemma_slot_of(s.progress, member);
}

/// A follower is well formed.
pub proof fn lemma_following(s: NodeModel, leader: Option<NodeId>)
    requires
        s.wf(),
    ensures
        s.following(leader).wf(),
{
    assert(s.following(leader).voters() == s.voters());
}

/// A follower of a recognised leader is well formed.
pub proof fn lemma_recognising(s: NodeModel, leader: NodeId)
    requires
        s.wf(),
    ensures
        s.recognising(leader).wf(),
{
    let t = NodeModel { leader_elapsed: 0, ..s.following(Some(leader)) };
    assert(t.voters() == s.voters());
    lemma_timer_reset(t);
}

/// Writing the hard state changes neither entries nor voters.
pub proof fn lemma_persisted(s: NodeModel)
    requires
        s.log.wf(),
    ensures
        s.persisted().log.wf(),
        s.persisted().voters() == s.voters(),
        s.persisted().log.last_index() == s.log.last_index(),
        s.persisted().log.base_index() == s.log.base_index(),
        s.persisted().log.last_term() == s.log.last_term(),
{
    lemma_between_all(s.log);
    lemma_between_all(s.persisted().log);
}

/// Seeing a term keeps the node well formed and never moves its term back.
pub proof fn lemma_seen(s: NodeModel, term: Term)
    requires
        s.wf(),
    ensures
        s.seen(term).wf(),
        s.seen(term).term >= s.term,
        s.seen(term).term >= term,
        s.seen(term).log.entries == s.log.entries,
        s.seen(term).log.snapshot == s.log.snapshot,
{
    if term > s.term {
        let t = NodeModel { term, voted_for: None, ..s.following(None) };
        lemma_persisted(t);
        assert(t.voters() == s.voters());
    }
}

/// Draining keeps the node well formed.
pub proof fn lemma_drained(s: NodeModel)
    requires
        s.wf(),
    ensures
        s.drained().0.wf(),
{
    let t = s.drained().0;
    assert(t.voters() == s.voters());
    assert(t.others() == s.others());
}

/// The commit target lies between the present commit index and the bound.
pub proof fn lemma_commit_target(s: NodeModel, index: int)
    ensures
        s.commit <= s.commit_target(index),
        index >= s.commit ==> s.commit_target(index) <= index,
        s.commit_target(index) > s.commit ==> s.may_commit(s.commit_target(index)),
    decreases index,
{
    if index > s.commit && !s.may_commit(index) {
        lemma_commit_target(s, index - 1);
    }
}

/// Committing keeps a leader well formed, or makes it a follower.
pub proof fn lemma_committed(s: NodeModel)
    requires
        s.wf(),
    ensures
        s.committed().0.wf(),
        s.committed().0.role == s.role || s.committed().0.role == Role::Follower,
        s.committed().0.progress == s.progress || s.committed().0.role != Role::Leader,
        s.committed().0.log == s.log,
        s.committed().0.term == s.term,
        s.committed().0.cfg == s.cfg,
        s.committed().0.role == s.role ==> s.committed().0.transfer == s.transfer,
{
    lemma_commit_target(s, s.log.last_index());
    let target = s.commit_target(s.log.last_index());
    if target > s.commit {
        let t = NodeModel { commit: target as Index, ..s };
        assert(t.voters() == s.voters());
        assert(t.others() == s.others());
        assert(t.wf());
        lemma_drained(t);
        lemma_following(t.drained().0, None);
    }
}

/// Sending keeps what is known of a voter within the leader's log.
pub proof fn lemma_after_sending(s: NodeModel, p: Progress)
    requires
        s.log.wf(),
        s.log.last_index() < u64::MAX,
        s.cfg.usable(),
        p.matched < p.next <= s.log.last_index() + 1,
    ensures
        s.after_sending(p).peer == p.peer,
        s.after_sending(p).matched == p.matched,
        p.next <= s.after_sending(p).next <= s.log.last_index() + 1,
        p.next > s.log.base_index() ==> s.batch(p).len() <= s.cfg.max_batch,
{
}

/// Broadcasting keeps a leader well formed.
pub proof fn lemma_broadcast(s: NodeModel)
    requires
        s.wf(),
    ensures
        s.broadcast().0.wf(),
        s.broadcast().0.log == s.log,
        s.broadcast().0.role == s.role,
{
    let t = s.broadcast().0;
    assert(t.voters() == s.voters());
    assert(t.others() == s.others());
    if s.role == Role::Leader {
        assert forall|i: int| 0 <= i < t.progress.len() implies {
            let p = #[trigger] t.progress[i];
            p.peer == t.others()[i] && p.matched < p.next <= t.log.last_index() + 1
        } by {
            lemma_after_sending(s, s.progress[i]);
        }
    } else {
        assert(t.progress =~= Seq::<Progress>::empty());
    }
}

/// Replacing what is known of one voter keeps a leader well formed.
pub proof fn lemma_progress_update(s: NodeModel, slot: int, p: Progress)
    requires
        s.wf(),
        s.role == Role::Leader,
        0 <= slot < s.progress.len(),
        p.peer == s.progress[slot].peer,
        p.matched < p.next <= s.log.last_index() + 1,
    ensures
        s.knowing(slot, p).wf(),
{
    let t = s.knowing(slot, p);
    assert(t.voters() == s.voters());
    assert(t.others() == s.others());
    assert forall|i: int| 0 <= i < t.progress.len() implies {
        let q = #[trigger] t.progress[i];
        q.peer == t.others()[i] && q.matched < q.next <= t.log.last_index() + 1
    } by {
        assert(s.progress[i].peer == s.others()[i]);
    }
}

/// Sending to one voter keeps a leader well formed.
pub proof fn lemma_sent_to(s: NodeModel, slot: int)
    requires
        s.wf(),
        s.role == Role::Leader,
        0 <= slot < s.progress.len(),
    ensures
        s.sent_to(slot).0.wf(),
        s.sent_to(slot).0.role == Role::Leader,
        s.sent_to(slot).0.log == s.log,
        s.sent_to(slot).0.progress.len() == s.progress.len(),
{
    assert(s.progress[slot].peer == s.others()[slot]);
    lemma_after_sending(s, s.progress[slot]);
    lemma_progress_update(s, slot, s.after_sending(s.progress[slot]));
}

/// Broadcasting and committing keeps a leader well formed.
pub proof fn lemma_broadcast_and_committed(s: NodeModel)
    requires
        s.wf(),
    ensures
        s.broadcast_and_committed().0.wf(),
        s.broadcast_and_committed().0.log == s.log,
        s.broadcast_and_committed().0.term == s.term,
        s.broadcast_and_committed().0.cfg == s.cfg,
{
    lemma_broadcast(s);
    lemma_committed(s.broadcast().0);
}

/// A new leader is well formed.
pub proof fn lemma_leading(s: NodeModel)
    requires
        s.wf(),
        s.voted_for == Some(s.cfg.id),
    ensures
        s.leading().wf(),
{
    let t = s.leading();
    assert(t.voters() == s.voters());
    assert(t.others() == s.others());
}

/// Winning an election keeps the node well formed.
pub proof fn lemma_elected(s: NodeModel)
    requires
        s.wf(),
        s.voted_for == Some(s.cfg.id),
    ensures
        s.elected().0.wf(),
        s.elected().0.log == s.log,
        s.elected().0.term == s.term,
        s.elected().0.cfg == s.cfg,
{
    lemma_leading(s);
    lemma_broadcast_and_committed(s.leading());
}

/// A new candidate is well formed.
pub proof fn lemma_campaigning(s: NodeModel)
    requires
        s.wf(),
        s.term < u64::MAX,
        s.is_voter(),
    ensures
        s.campaigning().wf(),
        s.campaigning().role == Role::Candidate,
        s.campaigning().term == s.term + 1,
        s.campaigning().log.entries == s.log.entries,
        s.campaigning().log.snapshot == s.log.snapshot,
{
    let a = NodeModel {
        role: Role::Candidate,
        term: (s.term + 1) as Term,
        voted_for: Some(s.cfg.id),
        leader: None,
        votes: seq![s.cfg.id],
        progress: Seq::empty(),
        transfer: None,
        ..s
    };
    assert(a.timer_reset().voters() == s.voters());
    lemma_persisted(a.timer_reset());
    let t = s.campaigning();
    assert(t == a.timer_reset().persisted());
    assert(t.members == s.members);
    assert(t.votes =~= seq![s.cfg.id]);
}

/// Standing for election keeps the node well formed.
pub proof fn lemma_election(s: NodeModel, force: bool)
    requires
        s.wf(),
        s.term < u64::MAX,
        s.is_voter(),
    ensures
        s.election(force).0.wf(),
        s.election(force).0.term == s.term + 1,
        s.election(force).0.log.entries == s.log.entries,
        s.election(force).0.log.snapshot == s.log.snapshot,
{
    lemma_campaigning(s);
    if 1 >= s.campaigning().quorum() {
        lemma_elected(s.campaigning());
    }
}

/// A tick keeps the node well formed.
pub proof fn lemma_on_tick(s: NodeModel)
    requires
        s.wf(),
        s.has_room_for(EventModel::Tick),
    ensures
        s.on_tick().0.wf(),
{
    if s.role == Role::Leader {
        let w = s.awaiting_transfer();
        assert(w.voters() == s.voters());
        assert(w.others() == s.others());
        assert(w.wf());
        let z = NodeModel { heartbeat_elapsed: 0, ..w };
        assert(z.voters() == s.voters());
        assert(z.others() == s.others());
        assert(z.wf());
        lemma_broadcast(z);
        if w.heartbeat_elapsed + 1 < w.cfg.heartbeat_interval {
            let y = NodeModel { heartbeat_elapsed: (w.heartbeat_elapsed + 1) as u32, ..w };
            assert(y.voters() == s.voters());
            assert(y.others() == s.others());
        }
    } else {
        let next = s.ticked();
        assert(next.voters() == s.voters());
        assert(next.wf());
        if next.election_due() {
            lemma_election(next, false);
        }
    }
}

/// A new set of voters in the log, tracked, keeps a leader well formed.
pub proof fn lemma_changed(s: NodeModel, ids: Seq<NodeId>)
    requires
        s.wf(),
        s.role == Role::Leader,
        s.transfer is None,
        s.log.last_index() + 1 < u64::MAX,
        crate::members::ascending(ids),
        ids.len() > 0,
    ensures
        s.changed(ids).wf(),
{
    let grown = NodeModel { members: ids, ..s.appended(s.next_config(ids)) };
    let t = s.changed(ids);
    lemma_voters_after_config(s, ids);
    assert(t.voters() == s.appended(s.next_config(ids)).voters());
    assert(t.others() == grown.others());
    assert forall|i: int| 0 <= i < t.progress.len() implies {
        let p = #[trigger] t.progress[i];
        p.peer == t.others()[i] && p.matched < p.next <= t.log.last_index() + 1
    } by {
        let peer = grown.others()[i];
        lemma_slot_of(s.progress, peer);
        let at = crate::model::slot_of(s.progress, peer);
        if at < s.progress.len() {
            assert(s.progress[at].peer == s.others()[at]);
        }
    }
}

/// A change of the voters keeps the node well formed.
pub proof fn lemma_on_change(s: NodeModel, ids: Seq<NodeId>)
    requires
        s.wf(),
        s.role == Role::Leader,
        s.transfer is None,
        s.log.last_index() + 1 < u64::MAX,
        crate::members::ascending(ids),
        ids.len() > 0,
    ensures
        s.on_change(ids).0.wf(),
{
    lemma_changed(s, ids);
    lemma_broadcast_and_committed(s.changed(ids));
}

/// A command at the end of the log keeps a leader well formed.
pub proof fn lemma_command_appended(s: NodeModel, command: Seq<u8>)
    requires
        s.wf(),
        s.log.last_index() + 1 < u64::MAX,
    ensures
        s.appended(s.next_command(command)).wf(),
{
    let t = s.appended(s.next_command(command));
    lemma_voters_after_command(s, s.next_command(command));
    assert(t.others() == s.others());
    assert forall|i: int| 0 <= i < t.progress.len() implies {
        let p = #[trigger] t.progress[i];
        p.peer == t.others()[i] && p.matched < p.next <= t.log.last_index() + 1
    } by {
        assert(s.progress[i].peer == s.others()[i]);
    }
}

/// A proposal keeps the node well formed.
pub proof fn lemma_on_propose(s: NodeModel, command: Seq<u8>)
    requires
        s.wf(),
        s.has_room_for(EventModel::Propose(command)),
    ensures
        s.on_propose(command) matches StepModel::Moved(t, _) ==> t.wf(),
{
    if s.refusal() is None {
        lemma_command_appended(s, command);
        lemma_broadcast_and_committed(s.appended(s.next_command(command)));
    }
}

/// The first entry that a log does not hold, and what comes before it.
pub proof fn lemma_first_new(log: LogModel, entries: Seq<EntryModel>, at: int)
    requires
        0 <= at <= entries.len(),
    ensures
        at <= crate::model::first_new(log, entries, at) <= entries.len(),
        forall|i: int|
            at <= i < crate::model::first_new(log, entries, at) ==> log.term_at(
                (#[trigger] entries[i]).index as int,
            ) == Some(entries[i].term),
        crate::model::first_new(log, entries, at) < entries.len() ==> log.term_at(
            entries[crate::model::first_new(log, entries, at)].index as int,
        ) != Some(entries[crate::model::first_new(log, entries, at)].term),
    decreases entries.len() - at,
{
    if at < entries.len() && log.term_at(entries[at].index as int) == Some(entries[at].term) {
        lemma_first_new(log, entries, at + 1);
    }
}

/// Merging a batch that runs on from an agreed point keeps the log's indices
/// contiguous and everything before the first new entry, and ends up holding
/// the whole batch.
pub proof fn lemma_merge(log: LogModel, prev: int, entries: Seq<EntryModel>)
    requires
        log.wf(),
        log.last_index() < u64::MAX,
        crate::model::follows(prev, entries),
        0 <= prev <= log.last_index(),
    ensures
        ({
            let fresh = log.uncovered(prev, entries);
            let k = crate::model::first_new(log, fresh, 0);
            let merged = log.merge(fresh);
            &&& merged.wf()
            &&& merged.last_index() < u64::MAX
            &&& merged.hard == log.hard
            &&& merged.snapshot == log.snapshot
            &&& merged.last_index() >= prev + entries.len()
            &&& 0 <= k <= fresh.len()
            &&& forall|i: int|
                0 <= i < fresh.len() ==> (#[trigger] fresh[i]).index == entries[entries.len()
                    - fresh.len() + i].index && fresh[i].index > log.base_index()
            &&& k < fresh.len() ==> {
                &&& log.base_index() < fresh[k].index <= log.last_index() + 1
                &&& log.truncate(fresh[k].index as int).continued_by(fresh.skip(k))
                &&& log.truncate(fresh[k].index as int).wf()
            }
            &&& forall|i: int|
                log.base_index() < i && (k < fresh.len() ==> i < fresh[k].index) && i
                    <= log.last_index() ==> merged.entry(i) == log.entry(i)
            &&& k < fresh.len() ==> merged.last_index() == prev + entries.len()
        }),
{
    let skip = crate::log::clamp(log.base_index() - prev, 0, entries.len() as int);
    let fresh = log.uncovered(prev, entries);
    assert forall|i: int| 0 <= i < fresh.len() implies (#[trigger] fresh[i]).index == entries[
    entries.len() - fresh.len() + i].index && fresh[i].index > log.base_index() by {
        assert(fresh[i] == entries[skip + i]);
    }
    lemma_first_new(log, fresh, 0);
    let k = crate::model::first_new(log, fresh, 0);
    if k < fresh.len() {
        assert(fresh[k].index <= log.last_index() + 1) by {
            if k > 0 {
                assert(log.term_at(fresh[k - 1].index as int) == Some(fresh[k - 1].term));
            }
        }
        let cut = log.truncate(fresh[k].index as int);
        assert(cut.last_index() == fresh[k].index - 1);
        let tail = fresh.skip(k);
        assert forall|i: int| 0 <= i < tail.len() implies (#[trigger] tail[i]).index
            == cut.last_index() + 1 + i by {
            assert(tail[i] == fresh[k + i]);
        }
        assert(cut.wf());
        crate::log::law_log_changes_keep_indices_contiguous(
            cut,
            tail,
            1,
            cut.hard,
            SnapshotModel { index: 0, term: 0, config: Seq::empty(), data: Seq::empty() },
        );
    } else {
        if fresh.len() > 0 {
            let z = fresh.len() - 1;
            assert(log.term_at(fresh[z].index as int) == Some(fresh[z].term));
        }
    }
}

/// Recomputing the voters of a follower keeps it well formed.
pub proof fn lemma_reconfigured(s: NodeModel)
    requires
        s.cfg.usable(),
        s.log.wf(),
        s.log.last_index() < u64::MAX,
        s.log.base_index() <= s.applied <= s.commit <= s.log.last_index(),
        s.log.hard.term == s.term,
        s.log.hard.voted_for == s.voted_for,
        s.heartbeat_elapsed < s.cfg.heartbeat_interval,
        s.cfg.election_timeout_min <= s.election_timeout <= s.cfg.election_timeout_max,
        s.role == Role::Follower,
        s.progress.len() == 0,
        s.transfer is None,
    ensures
        s.reconfigured().0.wf(),
{
    lemma_voters(s, s.log.last_index());
    assert(s.reconfigured().0.voters() == s.voters());
}

/// Following a leader's commit index keeps the node well formed.
pub proof fn lemma_followed(s: NodeModel, leader_commit: Index, agreed: int)
    requires
        s.wf(),
        0 <= agreed <= s.log.last_index(),
    ensures
        s.followed(leader_commit, agreed).0.wf(),
{
    let ready = s.raised(leader_commit, agreed);
    assert(ready.voters() == s.voters());
    assert(ready.others() == s.others());
    lemma_drained(ready);
}

/// Taking a batch keeps the node well formed.
pub proof fn lemma_on_append(s: NodeModel, m: AppendModel)
    requires
        s.wf(),
        s.term >= m.term,
    ensures
        s.on_append(m).0.wf(),
{
    if m.term >= s.term {
        lemma_recognising(s, m.leader);
        let t = s.recognising(m.leader);
        let prev = m.prev_log_index as int;
        let fresh = t.log.uncovered(prev, m.entries);
        if prev <= t.log.last_index() && t.log.agrees_at(prev, m.prev_log_term)
            && crate::model::follows(prev, m.entries) && !t.undoes_commit(fresh) {
            lemma_merge(t.log, prev, m.entries);
            let joined = NodeModel { log: t.log.merge(fresh), ..t };
            lemma_first_new(t.log, fresh, 0);
            lemma_reconfigured(joined);
            lemma_followed(
                joined.reconfigured().0,
                m.leader_commit,
                m.prev_log_index + m.entries.len(),
            );
        }
    }
}

/// Acknowledgements keep the node well formed.
pub proof fn lemma_acknowledged(s: NodeModel, slot: int, index: Index)
    requires
        s.wf(),
        s.role == Role::Leader,
        0 <= slot < s.progress.len(),
    ensures
        s.acknowledged(slot, index).0.wf(),
{
    if index <= s.log.last_index() {
        let known = s.progress[slot].agreeing(index);
        assert(s.progress[slot].peer == s.others()[slot]);
        lemma_progress_update(s, slot, known);
        let u = s.knowing(slot, known);
        lemma_committed(u);
        let next = u.committed().0;
        if next.role == Role::Leader && known.next <= next.log.last_index() {
            lemma_sent_to(next, slot);
        }
    }
}

/// A search never looks past where it starts.
pub proof fn lemma_last_of_term_bound(log: LogModel, term: Term, index: int)
    ensures
        log.last_of_term(term, index) == 0 || log.last_of_term(term, index) <= index,
    decreases index,
{
    if index > 0 && index >= log.base_index() && log.term_at(index) != Some(term) {
        lemma_last_of_term_bound(log, term, index - 1);
    }
}

/// The place to probe next lies within the log, past what is known to agree.
pub proof fn lemma_backed_off(s: NodeModel, p: Progress, m: AppendEntriesReply)
    requires
        p.matched < p.next <= s.log.last_index() + 1,
    ensures
        p.matched < s.backed_off(p, m) <= s.log.last_index() + 1,
        p.next > p.matched + 1 && m.conflict_index <= p.next ==> s.backed_off(p, m) < p.next,
{
    lemma_last_of_term_bound(s.log, m.conflict_term, p.next - 1);
}

/// Answers to appends keep the node well formed.
pub proof fn lemma_on_append_reply(s: NodeModel, m: AppendEntriesReply)
    requires
        s.wf(),
    ensures
        s.on_append_reply(m).0.wf(),
{
    let slot = crate::model::slot_of(s.progress, m.from);
    lemma_slot_of(s.progress, m.from);
    if s.role == Role::Leader && m.term == s.term && slot < s.progress.len() {
        assert(s.progress[slot].peer == s.others()[slot]);
        if m.success {
            lemma_acknowledged(s, slot, m.match_index);
        } else {
            let p = s.progress[slot];
            lemma_backed_off(s, p, m);
            let q = Progress { next: s.backed_off(p, m) as Index, streaming: false, ..p };
            lemma_progress_update(s, slot, q);
            lemma_sent_to(s.knowing(slot, q), slot);
        }
    }
}

/// Installing a snapshot keeps the node well formed.
pub proof fn lemma_on_install(s: NodeModel, m: InstallModel)
    requires
        s.wf(),
        s.term >= m.term,
    ensures
        s.on_install(m).0.wf(),
{
    if m.term >= s.term {
        lemma_recognising(s, m.leader);
        let here = s.recognising(m.leader);
        if s.commit < m.snapshot.index < u64::MAX {
            crate::log::law_log_changes_keep_indices_contiguous(
                here.log,
                Seq::empty(),
                1,
                here.log.hard,
                m.snapshot,
            );
            lemma_reconfigured(
                NodeModel {
                    log: here.log.compact(m.snapshot),
                    commit: m.snapshot.index,
                    applied: m.snapshot.index,
                    ..here
                },
            );
        }
    }
}

/// Votes keep the node well formed.
pub proof fn lemma_on_request_vote(s: NodeModel, m: RequestVote)
    requires
        s.wf(),
    ensures
        s.on_request_vote(m).0.wf(),
{
    if s.grants(m) {
        let a = NodeModel { voted_for: Some(m.candidate), ..s };
        lemma_persisted(a);
        assert(a.voters() == s.voters());
        assert(a.persisted().others() == s.others());
        assert(a.persisted().wf());
        lemma_timer_reset(a.persisted());
    }
}

/// A message keeps the node well formed.
pub proof fn lemma_on_message(s: NodeModel, m: MessageModel)
    requires
        s.wf(),
        s.has_room_for(EventModel::Message(m)),
    ensures
        s.on_message(m).0.wf(),
{
    lemma_seen(s, m.term());
    let t = s.seen(m.term());
    match m {
        MessageModel::PreVote(_) => {},
        MessageModel::PreVoteReply(_) => {},
        MessageModel::RequestVote(rv) => {
            lemma_on_request_vote(t, rv);
        },
        MessageModel::RequestVoteReply(r) => {
            if t.role == Role::Candidate && r.term == t.term && r.vote_granted
                && t.members.contains(r.from) && !t.votes.contains(r.from) {
                let next = t.counting(r.from);
                assert(next.voters() == t.voters());
                assert(next.wf());
                lemma_elected(next);
            }
        },
        MessageModel::AppendEntries(a) => {
            lemma_on_append(t, a);
        },
        MessageModel::AppendEntriesReply(r) => {
            lemma_on_append_reply(t, r);
        },
        MessageModel::InstallSnapshot(i) => {
            lemma_on_install(t, i);
        },
        MessageModel::InstallSnapshotReply(r) => {
            let slot = crate::model::slot_of(t.progress, r.from);
            lemma_slot_of(t.progress, r.from);
            if t.role == Role::Leader && r.term == t.term && slot < t.progress.len() {
                lemma_acknowledged(t, slot, r.last_index);
            }
        },
        MessageModel::TimeoutNow(x) => {
            if x.term >= t.term && t.role != Role::Leader && t.is_voter() {
                lemma_election(t, true);
            }
        },
    }
}

/// A request for a transfer keeps the node well formed.
pub proof fn lemma_on_transfer(s: NodeModel, target: NodeId)
    requires
        s.wf(),
    ensures
        s.on_transfer(target) matches StepModel::Moved(t, _) ==> t.wf(),
{
    let slot = crate::model::slot_of(s.progress, target);
    lemma_slot_of(s.progress, target);
    if s.role == Role::Leader && slot < s.progress.len() {
        let next = NodeModel { transfer: Some(target), election_elapsed: 0, ..s };
        assert(next.voters() == s.voters());
        assert(next.others() == s.others());
        assert(s.progress[slot].peer == s.others()[slot]);
        assert(s.others().contains(target));
        assert(next.wf());
        lemma_sent_to(next, slot);
    }
}

/// A snapshot of the application keeps the node well formed.
pub proof fn lemma_on_snapshot(s: NodeModel, index: Index, data: Seq<u8>)
    requires
        s.wf(),
    ensures
        s.on_snapshot(index, data).wf(),
{
    if s.log.base_index() < index <= s.applied {
        lemma_voters_after_compaction(s, index, data);
        let t = s.on_snapshot(index, data);
        assert(t.others() == s.others());
        assert forall|i: int| 0 <= i < t.progress.len() implies {
            let p = #[trigger] t.progress[i];
            p.peer == t.others()[i] && p.matched < p.next <= t.log.last_index() + 1
        } by {
            assert(s.progress[i].peer == s.others()[i]);
        }
    }
}

/// A node that starts over a well-formed log is well formed.
pub proof fn lemma_initial(cfg: ConfigModel, log: LogModel)
    requires
        cfg.usable(),
        log.wf(),
        log.last_index() < u64::MAX,
    ensures
        NodeModel::initial(cfg, log).wf(),
{
    let t = NodeModel::initial(cfg, log);
    lemma_voters(t, t.log.last_index());
    assert(t.members == t.voters());
    crate::rng::law_draw_is_in_range(
        cfg.seed,
        cfg.election_timeout_min,
        cfg.election_timeout_max,
    );
}

/// Whatever happens, a node stays well formed: its indices are ordered, its term
/// and vote are the persisted ones, its voters are those its log names, and a
/// leader tracks exactly the other voters.
pub proof fn law_every_step_keeps_the_node_well_formed(s: NodeModel, event: EventModel)
    requires
        s.wf(),
        s.has_room_for(event),
    ensures
        s.step(event) matches StepModel::Moved(t, _) ==> t.wf(),
{
    match event {
        EventModel::Tick => {
            lemma_on_tick(s);
        },
        EventModel::Message(m) => {
            lemma_on_message(s, m);
        },
        EventModel::Propose(command) => {
            lemma_on_propose(s, command);
        },
        EventModel::Snapshot { index, data } => {
            lemma_on_snapshot(s, index, data);
        },
        EventModel::AddServer(id) => {
            crate::members::lemma_insert_id(s.members, id);
            if s.starts_change(event) {
                lemma_on_change(s, crate::members::insert_id(s.members, id));
            }
        },
        EventModel::RemoveServer(id) => {
            crate::members::lemma_without(s.members, id);
            if s.starts_change(event) {
                lemma_on_change(s, crate::members::without(s.members, id));
            }
        },
        EventModel::TransferLeadership(target) => {
            lemma_on_transfer(s, target);
        },
    }
}

} // verus!
