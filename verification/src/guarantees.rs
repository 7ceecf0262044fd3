//! What every run of a cluster guarantees.
//!
//! Each event is taken apart into the pieces of its transition, so that every
//! step keeps a cluster as its history says. What that invariant says of any two
//! moments of a run are the guarantees, at the end of this file.

use crate::cluster::{Applied, Cluster, History, Leadership, Move};
use crate::config::ConfigModel;
use crate::log::LogModel;
use crate::message::{
    AppendEntriesReply, AppendModel, InstallModel, InstallSnapshotReply, MessageModel, RequestVote,
    RequestVoteReply, TimeoutNow,
};
use crate::model::{ActionModel, EventModel, NodeModel, Progress, StepModel};
use crate::types::{EntryModel, Index, NodeId, Role, Term};
use vstd::prelude::*;

verus! {

// ---- quiet pieces --------------------------------------------------------

/// A node changes nothing that its history speaks of, or stops leading or
/// standing.
proof fn lemma_quiet(
    c: Cluster,
    h: History,
    n: NodeId,
    next: NodeModel,
    out: Seq<ActionModel>,
)
    requires
        c.sound(h),
        c.nodes.contains_key(n),
        next.wf(),
        next.cfg == c.nodes[n].cfg,
        next.log == c.nodes[n].log,
        next.term == c.nodes[n].term,
        next.voted_for == c.nodes[n].voted_for,
        next.members == c.nodes[n].members,
        next.commit == c.nodes[n].commit,
        next.role == Role::Follower || (next.role == c.nodes[n].role && next.votes
            == c.nodes[n].votes && next.progress == c.nodes[n].progress),
        crate::steps::honest(h, c.founders, n, out),
    ensures
        c.moved(n, next, out).sound(h),
        h.continues(h),
{
    assert(h.describes(c.founders, n, c.nodes[n]));
    assert(h.describes(c.founders, n, next));
    crate::steps::lemma_unrecorded(c, h, n, next, out);
}

/// A node enters a later term, then does something.
proof fn lemma_seen_then(
    c: Cluster,
    n: NodeId,
    term: Term,
    next: NodeModel,
    out: Seq<ActionModel>,
)
    ensures
        c.moved(n, c.nodes[n].seen(term), Seq::empty()).moved(n, next, out) == c.moved(
            n,
            next,
            out,
        ),
{
    crate::steps::lemma_moved_twice(
        c,
        n,
        c.nodes[n].seen(term),
        Seq::empty(),
        next,
        out,
    );
    assert(Seq::<ActionModel>::empty() + out =~= out);
}

// ---- elections -----------------------------------------------------------

/// A candidate with a majority behind it takes over.
proof fn lemma_elected(c: Cluster, h: History, n: NodeId) -> (g: History)
    requires
        c.sound(h),
        c.nodes.contains_key(n),
        c.nodes[n].role == Role::Candidate,
        c.nodes[n].votes.len() >= c.nodes[n].quorum(),
    ensures
        g.continues(h),
        c.moved(n, c.nodes[n].elected().0, c.nodes[n].elected().1).sound(g),
{
    let s = c.nodes[n];
    let mid = s.leading();
    let (next, out) = mid.broadcast_and_committed();
    let g = crate::steps::lemma_takes_lead(c, h, n);
    crate::steps::lemma_moved_twice(c, n, mid, Seq::empty(), next, out);
    crate::steps::lemma_broadcasts_and_commits(c.moved(n, mid, Seq::empty()), g, n);
    assert(Seq::<ActionModel>::empty() + out =~= out);
    g
}

/// A node stands for election.
proof fn lemma_election(c: Cluster, h: History, n: NodeId, force: bool) -> (g: History)
    requires
        c.sound(h),
        c.nodes.contains_key(n),
        c.nodes[n].term < u64::MAX,
        c.nodes[n].is_voter(),
        c.informed(n, c.nodes[n].log.last_index()),
    ensures
        g.continues(h),
        c.moved(n, c.nodes[n].election(force).0, c.nodes[n].election(force).1).sound(g),
{
    let s = c.nodes[n];
    let mid = s.campaigning();
    let (next, out) = s.election(force);
    let g = crate::steps::lemma_stands(c, h, n);
    let d = c.moved(n, mid, Seq::empty());
    crate::steps::lemma_moved_twice(c, n, mid, Seq::empty(), next, out);
    assert(Seq::<ActionModel>::empty() + out =~= out);
    assert(g.describes(d.founders, n, d.nodes[n]));
    if 1 >= mid.quorum() {
        let f = lemma_elected(d, g, n);
        crate::steps::lemma_continues_through(h, g, f);
        f
    } else {
        assert(g.stands(n, mid));
        crate::steps::lemma_end_term(mid.log, g.full[n]);
        assert(crate::steps::honest(g, d.founders, n, out));
        crate::steps::lemma_unrecorded(d, g, n, mid, out);
        g
    }
}

/// A node answers a request for its vote.
proof fn lemma_vote_request(c: Cluster, h: History, n: NodeId, m: RequestVote) -> (g: History)
    requires
        c.sound(h),
        c.nodes.contains_key(n),
        c.nodes[n].term >= m.term,
        h.vouches(c.founders, n, MessageModel::RequestVote(m)),
    ensures
        g.continues(h),
        c.moved(n, c.nodes[n].on_request_vote(m).0, c.nodes[n].on_request_vote(m).1).sound(g),
{
    let s = c.nodes[n];
    let (next, out) = s.on_request_vote(m);
    assert(h.describes(c.founders, n, s));
    crate::upkeep::lemma_on_request_vote(s, m);
    if s.grants(m) {
        crate::steps::lemma_end_term(s.log, h.full[n]);
        let g = crate::steps::lemma_votes(c, h, n, m.candidate, next);
        let d = c.moved(n, next, Seq::empty());
        crate::steps::lemma_moved_twice(c, n, next, Seq::empty(), next, out);
        assert(Seq::<ActionModel>::empty() + out =~= out);
        assert(g.describes(d.founders, n, d.nodes[n]));
        assert(crate::steps::honest(g, d.founders, n, out));
        crate::steps::lemma_unrecorded(d, g, n, next, out);
        g
    } else {
        lemma_quiet(c, h, n, next, out);
        h
    }
}

/// A vote arrives.
proof fn lemma_vote_reply(c: Cluster, h: History, n: NodeId, m: RequestVoteReply) -> (g: History)
    requires
        c.sound(h),
        c.nodes.contains_key(n),
        h.vouches(c.founders, n, MessageModel::RequestVoteReply(m)),
    ensures
        g.continues(h),
        c.moved(n, c.nodes[n].on_vote_reply(m).0, c.nodes[n].on_vote_reply(m).1).sound(g),
{
    let s = c.nodes[n];
    let (next, out) = s.on_vote_reply(m);
    assert(h.describes(c.founders, n, s));
    if s.role == Role::Candidate && m.term == s.term && m.vote_granted && s.members.contains(m.from)
        && !s.votes.contains(m.from) {
        let mid = s.counting(m.from);
        assert(mid.wf());
        assert(h.describes(c.founders, n, mid)) by {
            assert forall|i: int| 0 <= i < mid.votes.len() implies {
                let v = #[trigger] mid.votes[i];
                h.votes.contains_key((mid.term, v)) && h.votes[(mid.term, v)].candidate == n
            } by {
                if i < s.votes.len() {
                    assert(mid.votes[i] == s.votes[i]);
                }
            }
        }
        crate::steps::lemma_unrecorded(c, h, n, mid, Seq::empty());
        if mid.votes.len() >= mid.quorum() {
            let d = c.moved(n, mid, Seq::empty());
            crate::steps::lemma_moved_twice(c, n, mid, Seq::empty(), next, out);
            assert(Seq::<ActionModel>::empty() + out =~= out);
            lemma_elected(d, h, n)
        } else {
            h
        }
    } else {
        lemma_quiet(c, h, n, s, Seq::empty());
        h
    }
}

// ---- replication ---------------------------------------------------------

/// Where a log gives way to a batch, it becomes the leader's.
#[verifier::rlimit(40)]
proof fn lemma_merge_mirrors(
    log: LogModel,
    full: Seq<EntryModel>,
    lead: Seq<EntryModel>,
    prev: int,
    entries: Seq<EntryModel>,
    q: int,
)
    requires
        log.wf(),
        log.last_index() < u64::MAX,
        0 <= prev <= log.last_index(),
        crate::model::follows(prev, entries),
        prev + entries.len() <= lead.len(),
        crate::cluster::mirrors(log, full),
        log.base_index() <= q,
        log.uncovered(prev, entries).len() == prev + entries.len() - q,
        forall|i: int|
            0 <= i < log.uncovered(prev, entries).len() ==> #[trigger] log.uncovered(
                prev,
                entries,
            )[i] == lead[q + i] && log.uncovered(prev, entries)[i].index == q + i + 1,
        ({
            let k = crate::model::first_new(log, log.uncovered(prev, entries), 0);
            &&& k < log.uncovered(prev, entries).len()
            &&& crate::cluster::agree(full, lead, q + k)
        }),
    ensures
        crate::cluster::mirrors(
            log.merge(log.uncovered(prev, entries)),
            lead.take(prev + entries.len()),
        ),
{
    let fresh = log.uncovered(prev, entries);
    let k = crate::model::first_new(log, fresh, 0);
    let merged = log.merge(fresh);
    let taken = lead.take(prev + entries.len());
    let base = log.base_index();
    crate::upkeep::lemma_merge(log, prev, entries);
    assert(fresh[k].index == q + k + 1);
    let cut = log.truncate(fresh[k].index as int);
    assert(cut.last_index() == q + k);
    let rest = fresh.skip(k);
    assert(merged == cut.append(rest));
    assert forall|i: int| merged.holds(i) implies #[trigger] merged.at(i) == taken[i - 1] by {
        assert(taken[i - 1] == lead[i - 1]);
        if i <= q + k {
            assert(log.holds(i));
            assert(log.at(i) == full[i - 1]);
            assert(cut.entries[i - base - 1] == log.entries[i - base - 1]);
            crate::safety::lemma_agree_at(full, lead, q + k, i - 1);
        } else {
            let j = i - q - 1;
            assert(merged.at(i) == rest[j - k]);
            assert(rest[j - k] == fresh[j]);
        }
    }
    if base > 0 {
        crate::safety::lemma_agree_at(full, lead, q + k, base - 1);
    }
}

/// A batch from the leader's log, taken after the consistency check, leaves the
/// first `prev + entries` entries as the leader has them.
#[verifier::rlimit(40)]
proof fn lemma_batch(
    h: History,
    s: NodeModel,
    full: Seq<EntryModel>,
    lead: Seq<EntryModel>,
    m: AppendModel,
) -> (log: Seq<EntryModel>)
    requires
        s.wf(),
        crate::cluster::mirrors(s.log, full),
        h.rooted(full),
        h.rooted(lead),
        crate::cluster::agree(full, lead, s.commit as int),
        m.prev_log_index + m.entries.len() <= lead.len(),
        m.entries == lead.subrange(
            m.prev_log_index as int,
            m.prev_log_index + m.entries.len(),
        ),
        m.prev_log_index > 0 ==> m.prev_log_term == lead[m.prev_log_index - 1].term,
        m.prev_log_index <= s.log.last_index(),
        s.log.agrees_at(m.prev_log_index as int, m.prev_log_term),
        crate::model::follows(m.prev_log_index as int, m.entries),
        !s.undoes_commit(s.log.uncovered(m.prev_log_index as int, m.entries)),
    ensures
        crate::cluster::agree(log, lead, m.prev_log_index + m.entries.len()),
        log == full || (log == lead.take(m.prev_log_index + m.entries.len())
            && !crate::cluster::agree(full, lead, m.prev_log_index + m.entries.len())),
        crate::cluster::agree(log, full, s.commit as int),
        crate::cluster::mirrors(
            s.log.merge(s.log.uncovered(m.prev_log_index as int, m.entries)),
            log,
        ),
        forall|i: int|
            0 <= i < log.len() ==> full.contains(#[trigger] log[i]) || m.entries.contains(log[i]),
{
    let prev = m.prev_log_index as int;
    let count = prev + m.entries.len();
    let base = s.log.base_index();
    let fresh = s.log.uncovered(prev, m.entries);
    crate::safety::lemma_agree_less(full, lead, s.commit as int, base);
    assert(crate::cluster::agree(full, full, s.commit as int));
    if count <= base {
        assert(fresh.len() == 0);
        crate::safety::lemma_agree_less(full, lead, base, count);
        full
    } else {
        let q = if prev > base {
            prev
        } else {
            base
        };
        assert(crate::cluster::agree(full, lead, q)) by {
            if prev > base {
                crate::steps::lemma_term_at(s.log, full, prev);
                crate::safety::lemma_rooted_logs_agree(h, full, lead, prev - 1);
            }
        }
        lemma_uncovered(s.log, lead, prev, m.entries);
        lemma_held(h, s.log, full, lead, fresh, q);
        let k = crate::model::first_new(s.log, fresh, 0);
        if k >= fresh.len() {
            full
        } else {
            let log = lead.take(count);
            assert(s.commit <= q + k) by {
                assert(fresh[k].index == q + k + 1);
            }
            assert(log.take(count) =~= lead.take(count));
            crate::safety::lemma_agree_less(full, lead, s.commit as int, s.commit as int);
            crate::safety::lemma_agree_less(log, lead, count, s.commit as int);
            if crate::cluster::agree(full, lead, count) {
                crate::safety::lemma_agree_at(full, lead, count, q + k);
            }
            lemma_merge_mirrors(s.log, full, lead, prev, m.entries, q);
            assert forall|i: int| 0 <= i < log.len() implies full.contains(#[trigger] log[i])
                || m.entries.contains(log[i]) by {
                assert(log[i] == lead[i]);
                if i < q + k {
                    crate::safety::lemma_agree_at(full, lead, q + k, i);
                    assert(full[i] == log[i]);
                } else {
                    assert(m.entries[i - prev] == log[i]);
                }
            }
            log
        }
    }
}

/// What of a piece of the leader's log a snapshot does not cover.
proof fn lemma_uncovered(
    log: LogModel,
    lead: Seq<EntryModel>,
    prev: int,
    entries: Seq<EntryModel>,
)
    requires
        0 <= prev,
        0 <= log.base_index() < prev + entries.len() <= lead.len(),
        entries == lead.subrange(prev, prev + entries.len()),
        crate::model::follows(prev, entries),
    ensures
        ({
            let q = if prev > log.base_index() {
                prev
            } else {
                log.base_index()
            };
            let fresh = log.uncovered(prev, entries);
            &&& fresh.len() == prev + entries.len() - q
            &&& forall|i: int|
                0 <= i < fresh.len() ==> #[trigger] fresh[i] == lead[q + i] && fresh[i].index == q
                    + i + 1
        }),
{
    let q = if prev > log.base_index() {
        prev
    } else {
        log.base_index()
    };
    let fresh = log.uncovered(prev, entries);
    assert forall|i: int| 0 <= i < fresh.len() implies #[trigger] fresh[i] == lead[q + i]
        && fresh[i].index == q + i + 1 by {
        let j = q - prev + i;
        assert(fresh[i] == entries[j]);
        assert(entries[j] == lead[prev + j]);
    }
}

/// A log agrees with the leader's as far as it holds the batch, and no further.
proof fn lemma_held(
    h: History,
    log: LogModel,
    full: Seq<EntryModel>,
    lead: Seq<EntryModel>,
    fresh: Seq<EntryModel>,
    q: int,
)
    requires
        log.wf(),
        crate::cluster::mirrors(log, full),
        h.rooted(full),
        h.rooted(lead),
        log.base_index() <= q,
        q + fresh.len() <= lead.len(),
        crate::cluster::agree(full, lead, q),
        forall|i: int|
            0 <= i < fresh.len() ==> #[trigger] fresh[i] == lead[q + i] && fresh[i].index == q + i
                + 1,
    ensures
        ({
            let k = crate::model::first_new(log, fresh, 0);
            &&& 0 <= k <= fresh.len()
            &&& crate::cluster::agree(full, lead, q + k)
            &&& k < fresh.len() && q + k < full.len() ==> full[q + k] != lead[q + k]
        }),
{
    let k = crate::model::first_new(log, fresh, 0);
    crate::upkeep::lemma_first_new(log, fresh, 0);
    if k > 0 {
        let i = k - 1;
        assert(log.term_at(fresh[i].index as int) == Some(fresh[i].term));
        assert(log.holds(q + k));
        crate::steps::lemma_term_at(log, full, q + k);
        crate::safety::lemma_rooted_logs_agree(h, full, lead, q + k - 1);
    }
    if k < fresh.len() && q + k < full.len() {
        assert(fresh[k] == lead[q + k]);
        crate::steps::lemma_term_at(log, full, q + k + 1);
    }
}

/// The node can take the batch.
spec fn takes(c: Cluster, h: History, n: NodeId, m: AppendModel) -> bool {
    let s = c.nodes[n];
    &&& c.sound(h)
    &&& c.nodes.contains_key(n)
    &&& s.role == Role::Follower
    &&& s.term == m.term
    &&& h.vouches_append(c.founders, m)
    &&& m.prev_log_index <= s.log.last_index()
    &&& s.log.agrees_at(m.prev_log_index as int, m.prev_log_term)
    &&& crate::model::follows(m.prev_log_index as int, m.entries)
    &&& !s.undoes_commit(s.log.uncovered(m.prev_log_index as int, m.entries))
}

/// A batch taken leaves a node as its history says.
#[verifier::rlimit(40)]
proof fn lemma_merged(c: Cluster, h: History, n: NodeId, m: AppendModel) -> (log: Seq<EntryModel>)
    requires
        takes(c, h, n, m),
    ensures
        ({
            let s = c.nodes[n];
            let lead = h.leaders[m.term].log;
            let count = m.prev_log_index + m.entries.len();
            let fresh = s.log.uncovered(m.prev_log_index as int, m.entries);
            let (merged, news) = NodeModel { log: s.log.merge(fresh), ..s }.reconfigured();
            &&& merged.wf()
            &&& merged == (NodeModel {
                log: s.log.merge(fresh),
                members: merged.members,
                ..s
            })
            &&& forall|g: History| crate::steps::honest(g, c.founders, n, news)
            &&& count <= merged.log.last_index()
            &&& crate::cluster::mirrors(merged.log, log)
            &&& crate::cluster::snapshot_names(c.founders, merged.log, log)
            &&& crate::cluster::agree(log, lead, count)
            &&& crate::cluster::agree(log, h.full[n], s.commit as int)
            &&& log == h.full[n] || (log == lead.take(count) && !crate::cluster::agree(
                h.full[n],
                lead,
                count,
            ))
            &&& forall|u: Term| #[trigger] h.early(u) ==> h.covered(u, log)
        }),
{
    let s = c.nodes[n];
    let full = h.full[n];
    let lead = h.leaders[m.term].log;
    let prev = m.prev_log_index as int;
    let fresh = s.log.uncovered(prev, m.entries);
    assert(h.describes(c.founders, n, s));
    assert(h.leads_well(c.founders, m.term));
    crate::steps::lemma_leader_holds_commit(c, h, n);
    let log = lemma_batch(h, s, full, lead, m);
    crate::upkeep::lemma_merge(s.log, prev, m.entries);
    let raw = NodeModel { log: s.log.merge(fresh), ..s };
    crate::upkeep::lemma_reconfigured(raw);
    crate::safety::lemma_agree_less(log, full, s.commit as int, s.log.base_index());
    assert forall|u: Term| #[trigger] h.early(u) implies h.covered(u, log) by {
        assert(h.covered(u, full) && h.covered(u, m.entries));
        assert forall|i: int| 0 <= i < log.len() implies h.covers(u, #[trigger] log[i]) by {
            if full.contains(log[i]) {
                let j = choose|j: int| 0 <= j < full.len() && full[j] == log[i];
                assert(h.covers(u, full[j]));
            } else {
                let j = choose|j: int| 0 <= j < m.entries.len() && m.entries[j] == log[i];
                assert(h.covers(u, m.entries[j]));
            }
        }
    }
    log
}

/// A follower takes a batch of its leader's.
#[verifier::rlimit(40)]
proof fn lemma_accepts(c: Cluster, h: History, n: NodeId, m: AppendModel) -> (g: History)
    requires
        takes(c, h, n, m),
    ensures
        g.continues(h),
        ({
            let fresh = c.nodes[n].log.uncovered(m.prev_log_index as int, m.entries);
            c.moved(n, c.nodes[n].accepted(m, fresh).0, c.nodes[n].accepted(m, fresh).1).sound(g)
        }),
{
    let s = c.nodes[n];
    let lead = h.leaders[m.term].log;
    let count = m.prev_log_index + m.entries.len();
    let fresh = s.log.uncovered(m.prev_log_index as int, m.entries);
    let (next, out) = s.accepted(m, fresh);
    assert(h.describes(c.founders, n, s));
    let log = lemma_merged(c, h, n, m);
    let (merged, news) = NodeModel { log: s.log.merge(fresh), ..s }.reconfigured();
    let mid = merged.raised(m.leader_commit, count);
    assert(mid.wf());
    let target = mid.commit as int;
    if target > merged.commit {
        crate::safety::lemma_agree_less(log, lead, count, target);
        crate::safety::lemma_settled_moves(
            h,
            c.founders,
            lead,
            log,
            m.leader_commit as int,
            target,
            m.term,
            m.term,
        );
    } else {
        crate::safety::lemma_settled_moves(
            h,
            c.founders,
            h.full[n],
            log,
            s.commit as int,
            s.commit as int,
            m.term,
            m.term,
        );
    }
    let g = crate::steps::lemma_takes_over(c, h, n, mid, log, count);
    lemma_drains_and_replies(c, g, n, mid, news, m.leader, count);
    g
}

/// A node tells of new voters, hands out what it has committed and acknowledges
/// `count` entries.
#[verifier::rlimit(40)]
proof fn lemma_drains_and_replies(
    c: Cluster,
    g: History,
    n: NodeId,
    mid: NodeModel,
    news: Seq<ActionModel>,
    to: NodeId,
    count: int,
)
    requires
        c.moved(n, mid, Seq::empty()).sound(g),
        0 <= count <= g.acked(mid.term, n),
        count <= mid.log.last_index(),
        crate::steps::honest(g, c.founders, n, news),
    ensures
        c.moved(
            n,
            mid.drained().0,
            news + mid.drained().1 + mid.drained().0.append_reply(to, true, count, 0, 0),
        ).sound(g),
{
    let d = c.moved(n, mid, Seq::empty());
    let (last, done) = mid.drained();
    let reply = last.append_reply(to, true, count, 0, 0);
    let all = news + done + reply;
    crate::steps::lemma_moved_twice(c, n, mid, Seq::empty(), last, all);
    assert(g.describes(d.founders, n, d.nodes[n]));
    crate::steps::lemma_drains(g, d.founders, n, mid);
    assert(crate::steps::honest(g, d.founders, n, reply));
    crate::steps::lemma_honest_both(g, d.founders, n, news, done);
    crate::steps::lemma_honest_both(g, d.founders, n, news + done, reply);
    crate::steps::lemma_unrecorded(d, g, n, last, all);
    assert(Seq::<ActionModel>::empty() + all =~= all);
}

/// A node answers an append.
#[verifier::rlimit(40)]
proof fn lemma_append(c: Cluster, h: History, n: NodeId, m: AppendModel) -> (g: History)
    requires
        c.sound(h),
        c.nodes.contains_key(n),
        c.nodes[n].term >= m.term,
        h.vouches_append(c.founders, m),
    ensures
        g.continues(h),
        c.moved(n, c.nodes[n].on_append(m).0, c.nodes[n].on_append(m).1).sound(g),
{
    let s = c.nodes[n];
    let (next, out) = s.on_append(m);
    assert(h.describes(c.founders, n, s));
    if m.term < s.term {
        lemma_quiet(c, h, n, s, out);
        h
    } else {
        let here = s.recognising(m.leader);
        crate::upkeep::lemma_recognising(s, m.leader);
        lemma_quiet(c, h, n, here, Seq::empty());
        let d = c.moved(n, here, Seq::empty());
        crate::steps::lemma_moved_twice(c, n, here, Seq::empty(), next, out);
        assert(Seq::<ActionModel>::empty() + out =~= out);
        let prev = m.prev_log_index as int;
        if prev > here.log.last_index() || !here.log.agrees_at(prev, m.prev_log_term)
            || !crate::model::follows(prev, m.entries) || here.undoes_commit(
            here.log.uncovered(prev, m.entries),
        ) {
            lemma_quiet(d, h, n, here, out);
            h
        } else {
            lemma_accepts(d, h, n, m)
        }
    }
}

/// A leader learns how far a voter agrees with it.
#[verifier::rlimit(40)]
proof fn lemma_acknowledged(c: Cluster, h: History, n: NodeId, slot: int, index: Index)
    requires
        c.sound(h),
        c.nodes.contains_key(n),
        c.nodes[n].role == Role::Leader,
        0 <= slot < c.nodes[n].progress.len(),
        index <= h.acked(c.nodes[n].term, c.nodes[n].progress[slot].peer),
    ensures
        h.continues(h),
        c.moved(
            n,
            c.nodes[n].acknowledged(slot, index).0,
            c.nodes[n].acknowledged(slot, index).1,
        ).sound(h),
{
    let s = c.nodes[n];
    assert(h.describes(c.founders, n, s));
    if index > s.log.last_index() {
        lemma_quiet(c, h, n, s, Seq::empty());
    } else {
        let known = s.progress[slot].agreeing(index);
        let mid = s.knowing(slot, known);
        crate::upkeep::lemma_progress_update(s, slot, known);
        assert(h.describes(c.founders, n, mid)) by {
            assert forall|i: int| 0 <= i < mid.progress.len() implies (
            #[trigger] mid.progress[i]).matched <= h.acked(mid.term, mid.progress[i].peer) by {
                let q = s.progress[i];
                assert(q.matched <= h.acked(s.term, q.peer));
            }
        }
        crate::steps::lemma_unrecorded(c, h, n, mid, Seq::empty());
        let d = c.moved(n, mid, Seq::empty());
        let (next, done) = mid.committed();
        crate::steps::lemma_moved_twice(c, n, mid, Seq::empty(), next, done);
        assert(Seq::<ActionModel>::empty() + done =~= done);
        crate::steps::lemma_commits(d, h, n);
        let e = c.moved(n, next, done);
        assert(e.nodes.contains_key(n));
        assert(e.nodes[n] == next);
        crate::upkeep::lemma_committed(mid);
        if next.role != Role::Leader {
        } else if known.next <= next.log.last_index() {
            let (sent, out) = next.sent_to(slot);
            crate::steps::lemma_sends_to(e, h, n, slot);
            crate::steps::lemma_moved_twice(c, n, next, done, sent, out);
            let f = c.moved(n, sent, done + out);
            let last = sent.handover(slot);
            assert(f.nodes[n] == sent);
            assert(h.describes(f.founders, n, f.nodes[n]));
            lemma_quiet(f, h, n, sent, last);
            crate::steps::lemma_moved_twice(c, n, sent, done + out, sent, last);
        } else {
            let last = next.handover(slot);
            assert(h.describes(e.founders, n, e.nodes[n]));
            lemma_quiet(e, h, n, next, last);
            crate::steps::lemma_moved_twice(c, n, next, done, next, last);
        }
    }
}

/// A leader takes the answer to an append.
proof fn lemma_append_reply(c: Cluster, h: History, n: NodeId, m: AppendEntriesReply)
    requires
        c.sound(h),
        c.nodes.contains_key(n),
        h.vouches(c.founders, n, MessageModel::AppendEntriesReply(m)),
    ensures
        h.continues(h),
        c.moved(n, c.nodes[n].on_append_reply(m).0, c.nodes[n].on_append_reply(m).1).sound(h),
{
    let s = c.nodes[n];
    assert(h.describes(c.founders, n, s));
    let slot = crate::model::slot_of(s.progress, m.from);
    crate::upkeep::lemma_slot_of(s.progress, m.from);
    if s.role != Role::Leader || m.term != s.term || slot >= s.progress.len() {
        lemma_quiet(c, h, n, s, Seq::empty());
    } else if m.success {
        lemma_acknowledged(c, h, n, slot, m.match_index);
    } else {
        let p = s.progress[slot];
        crate::upkeep::lemma_backed_off(s, p, m);
        let back = Progress { next: s.backed_off(p, m) as Index, streaming: false, ..p };
        crate::upkeep::lemma_progress_update(s, slot, back);
        let mid = NodeModel { progress: s.progress.update(slot, back), ..s };
        assert(h.describes(c.founders, n, mid)) by {
            assert forall|i: int| 0 <= i < mid.progress.len() implies (
            #[trigger] mid.progress[i]).matched <= h.acked(mid.term, mid.progress[i].peer) by {
                let q = s.progress[i];
                assert(q.matched <= h.acked(s.term, q.peer));
            }
        }
        crate::steps::lemma_unrecorded(c, h, n, mid, Seq::empty());
        let d = c.moved(n, mid, Seq::empty());
        let (next, out) = mid.sent_to(slot);
        crate::steps::lemma_moved_twice(c, n, mid, Seq::empty(), next, out);
        assert(Seq::<ActionModel>::empty() + out =~= out);
        crate::steps::lemma_sends_to(d, h, n, slot);
    }
}

/// A follower installs a snapshot of its leader's.
#[verifier::rlimit(40)]
proof fn lemma_installs(c: Cluster, h: History, n: NodeId, m: InstallModel) -> (g: History)
    requires
        c.sound(h),
        c.nodes.contains_key(n),
        c.nodes[n].term >= m.term,
        h.vouches_install(c.founders, m),
    ensures
        g.continues(h),
        c.moved(n, c.nodes[n].on_install(m).0, c.nodes[n].on_install(m).1).sound(g),
{
    let s = c.nodes[n];
    let (next, out) = s.on_install(m);
    assert(h.describes(c.founders, n, s));
    if m.term < s.term {
        lemma_quiet(c, h, n, s, out);
        h
    } else {
        let here = s.recognising(m.leader);
        crate::upkeep::lemma_recognising(s, m.leader);
        crate::upkeep::lemma_on_install(s, m);
        crate::steps::lemma_leader_holds_commit(c, h, n);
        let full = h.full[n];
        let lead = h.leaders[m.term].log;
        assert(h.leads_well(c.founders, m.term));
        let i = m.snapshot.index as int;
        let g = if s.commit < i < u64::MAX {
            let keeps = s.log.holds(i) && s.log.at(i).term == m.snapshot.term;
            let log = if keeps {
                full
            } else {
                lead.take(i)
            };
            if keeps {
                assert(s.log.at(i) == full[i - 1]);
                crate::safety::lemma_rooted_logs_agree(h, full, lead, i - 1);
            } else {
                assert(log.take(i) =~= lead.take(i));
                if crate::cluster::agree(full, lead, i) {
                    crate::safety::lemma_agree_at(full, lead, i, i - 1);
                    assert(s.log.holds(i));
                    assert(s.log.at(i) == full[i - 1]);
                }
            }
            assert(crate::cluster::agree(log, lead, i));
            let raw = NodeModel {
                log: here.log.compact(m.snapshot),
                commit: m.snapshot.index,
                applied: m.snapshot.index,
                ..here
            };
            assert(crate::cluster::mirrors(raw.log, log)) by {
                assert forall|j: int| raw.log.holds(j) implies #[trigger] raw.log.at(j) == log[j
                    - 1] by {
                    assert(s.log.holds(j));
                    assert(s.log.at(j) == full[j - 1]);
                }
                if keeps {
                    crate::safety::lemma_agree_at(full, lead, i, i - 1);
                }
            }
            assert(raw.log.wf()) by {
                crate::log::law_log_changes_keep_indices_contiguous(
                    s.log,
                    Seq::empty(),
                    1,
                    s.log.hard,
                    m.snapshot,
                );
            }
            assert(crate::cluster::snapshot_names(c.founders, raw.log, log)) by {
                crate::safety::lemma_agree_less(log, lead, i, i);
            }
            assert(next == NodeModel { members: next.members, ..raw });
            assert forall|u: Term| #[trigger] h.early(u) implies h.covered(u, log) by {
                if !keeps {
                    crate::safety::lemma_settled_is_covered(h, c.founders, lead, i, m.term, u);
                }
            }
            crate::safety::lemma_settled_moves(
                h,
                c.founders,
                lead,
                log,
                i,
                i,
                m.term,
                m.term,
            );
            crate::steps::lemma_takes_over(c, h, n, next, log, i)
        } else {
            crate::steps::lemma_takes_over(c, h, n, here, full, s.commit as int)
        };
        let d = c.moved(n, next, Seq::empty());
        crate::steps::lemma_moved_twice(c, n, next, Seq::empty(), next, out);
        assert(Seq::<ActionModel>::empty() + out =~= out);
        assert(d.nodes.contains_key(n));
        assert(g.describes(d.founders, n, d.nodes[n]));
        assert(crate::steps::honest(g, d.founders, n, out));
        crate::steps::lemma_unrecorded(d, g, n, next, out);
        g
    }
}

/// A leader takes the answer to a snapshot.
proof fn lemma_install_reply(c: Cluster, h: History, n: NodeId, m: InstallSnapshotReply)
    requires
        c.sound(h),
        c.nodes.contains_key(n),
        h.vouches(c.founders, n, MessageModel::InstallSnapshotReply(m)),
    ensures
        h.continues(h),
        c.moved(n, c.nodes[n].on_install_reply(m).0, c.nodes[n].on_install_reply(m).1).sound(h),
{
    let s = c.nodes[n];
    let slot = crate::model::slot_of(s.progress, m.from);
    assert(h.describes(c.founders, n, s));
    crate::upkeep::lemma_slot_of(s.progress, m.from);
    if s.role != Role::Leader || m.term != s.term || slot >= s.progress.len() {
        lemma_quiet(c, h, n, s, Seq::empty());
    } else {
        lemma_acknowledged(c, h, n, slot, m.last_index);
    }
}

// ---- events --------------------------------------------------------------

/// A node takes a tick.
proof fn lemma_tick(c: Cluster, h: History, n: NodeId) -> (g: History)
    requires
        c.sound(h),
        c.nodes.contains_key(n),
        c.nodes[n].has_room_for(EventModel::Tick),
        c.heeds(n, EventModel::Tick),
    ensures
        g.continues(h),
        c.moved(n, c.nodes[n].on_tick().0, c.nodes[n].on_tick().1).sound(g),
{
    let s = c.nodes[n];
    let (next, out) = s.on_tick();
    assert(h.describes(c.founders, n, s));
    crate::upkeep::lemma_on_tick(s);
    if s.role == Role::Leader {
        let waited = s.awaiting_transfer();
        if waited.heartbeat_elapsed + 1 >= waited.cfg.heartbeat_interval {
            let mid = NodeModel { heartbeat_elapsed: 0, ..waited };
            assert(mid.wf());
            lemma_quiet(c, h, n, mid, Seq::empty());
            crate::steps::lemma_moved_twice(c, n, mid, Seq::empty(), next, out);
            crate::steps::lemma_broadcasts(c.moved(n, mid, Seq::empty()), h, n);
            assert(Seq::<ActionModel>::empty() + out =~= out);
            h
        } else {
            lemma_quiet(c, h, n, next, out);
            h
        }
    } else {
        let mid = s.ticked();
        assert(mid.wf());
        lemma_quiet(c, h, n, mid, Seq::empty());
        if mid.election_due() {
            let d = c.moved(n, mid, Seq::empty());
            crate::steps::lemma_moved_twice(c, n, mid, Seq::empty(), next, out);
            assert(Seq::<ActionModel>::empty() + out =~= out);
            assert(d.informed(n, mid.log.last_index()));
            lemma_election(d, h, n, false)
        } else {
            h
        }
    }
}

/// A node is told to take over.
proof fn lemma_timeout_now(c: Cluster, h: History, n: NodeId, m: TimeoutNow) -> (g: History)
    requires
        c.sound(h),
        c.nodes.contains_key(n),
        m.term >= c.nodes[n].term && c.nodes[n].role != Role::Leader && c.nodes[n].is_voter()
            ==> c.nodes[n].term < u64::MAX && c.informed(n, c.nodes[n].log.last_index()),
    ensures
        g.continues(h),
        c.moved(n, c.nodes[n].on_timeout_now(m).0, c.nodes[n].on_timeout_now(m).1).sound(g),
{
    let s = c.nodes[n];
    assert(h.describes(c.founders, n, s));
    if m.term < s.term || s.role == Role::Leader || !s.is_voter() {
        lemma_quiet(c, h, n, s, Seq::empty());
        h
    } else {
        lemma_election(c, h, n, true)
    }
}

/// A node takes a message that was sent to it.
#[verifier::rlimit(40)]
proof fn lemma_message(c: Cluster, h: History, n: NodeId, m: MessageModel) -> (g: History)
    requires
        c.sound(h),
        c.nodes.contains_key(n),
        c.net.contains((n, m)),
        c.nodes[n].has_room_for(EventModel::Message(m)),
        c.heeds(n, EventModel::Message(m)),
    ensures
        g.continues(h),
        c.moved(n, c.nodes[n].on_message(m).0, c.nodes[n].on_message(m).1).sound(g),
{
    let s = c.nodes[n];
    let (next, out) = s.on_message(m);
    assert(h.describes(c.founders, n, s));
    assert(h.vouches(c.founders, n, m));
    let term = m.term();
    let d = c.moved(n, s.seen(term), Seq::empty());
    crate::steps::lemma_enters_term(c, h, n, term);
    lemma_seen_then(c, n, term, next, out);
    crate::upkeep::lemma_seen(s, term);
    assert(d.nodes[n] == s.seen(term));
    match m {
        MessageModel::PreVote(x) => {
            lemma_quiet(c, h, n, s, out);
            h
        },
        MessageModel::PreVoteReply(x) => {
            lemma_quiet(c, h, n, s, out);
            h
        },
        MessageModel::RequestVote(x) => if !x.force && s.leader_is_active() {
            lemma_quiet(c, h, n, s, out);
            h
        } else {
            lemma_vote_request(d, h, n, x)
        },
        MessageModel::RequestVoteReply(x) => lemma_vote_reply(d, h, n, x),
        MessageModel::AppendEntries(x) => lemma_append(d, h, n, x),
        MessageModel::AppendEntriesReply(x) => {
            lemma_append_reply(d, h, n, x);
            h
        },
        MessageModel::InstallSnapshot(x) => lemma_installs(d, h, n, x),
        MessageModel::InstallSnapshotReply(x) => {
            lemma_install_reply(d, h, n, x);
            h
        },
        MessageModel::TimeoutNow(x) => {
            let here = s.seen(term);
            assert(here.log.voters_at(here.log.last_index()) == s.log.voters_at(
                s.log.last_index(),
            ));
            lemma_timeout_now(d, h, n, x)
        },
    }
}

/// The voters in effect after one more entry.
proof fn lemma_conf_after(founders: Seq<NodeId>, log: Seq<EntryModel>, e: EntryModel)
    ensures
        crate::cluster::conf(founders, log.push(e)) == match crate::model::voters_in(e) {
            Some(ids) => ids,
            None => crate::cluster::conf(founders, log),
        },
{
    let grown = log.push(e);
    assert(grown.drop_last() =~= log);
    crate::upkeep::lemma_config_end(log);
    let end = crate::model::config_end(log);
    if end > 0 {
        assert(grown[end - 1] == log[end - 1]);
    }
}

/// A client's command reaches a node.
proof fn lemma_propose(c: Cluster, h: History, n: NodeId, command: Seq<u8>) -> (g: History)
    requires
        c.sound(h),
        c.nodes.contains_key(n),
        c.nodes[n].has_room_for(EventModel::Propose(command)),
    ensures
        g.continues(h),
        match c.nodes[n].on_propose(command) {
            StepModel::Refused(_) => c.sound(g),
            StepModel::Moved(next, out) => c.moved(n, next, out).sound(g),
        },
{
    let s = c.nodes[n];
    if s.refusal() is Some {
        assert(h.continues(h));
        h
    } else {
        let mid = s.appended(s.next_command(command));
        let (next, out) = mid.broadcast_and_committed();
        let e = s.next_command(command);
        assert(h.describes(c.founders, n, s));
        assert(h.rules(n, s));
        crate::upkeep::lemma_voters_after_command(s, e);
        assert(mid.wf());
        lemma_conf_after(c.founders, h.full[n], e);
        let g = crate::steps::lemma_appends(c, h, n, mid, e);
        crate::steps::lemma_moved_twice(c, n, mid, Seq::empty(), next, out);
        crate::steps::lemma_broadcasts_and_commits(c.moved(n, mid, Seq::empty()), g, n);
        assert(Seq::<ActionModel>::empty() + out =~= out);
        g
    }
}

/// A node compacts its log.
#[verifier::rlimit(40)]
proof fn lemma_compacts(c: Cluster, h: History, n: NodeId, index: Index, data: Seq<u8>)
    requires
        c.sound(h),
        c.nodes.contains_key(n),
        c.nodes[n].log.base_index() < index <= c.nodes[n].applied ==> c.informed(n, index as int),
    ensures
        c.moved(n, c.nodes[n].on_snapshot(index, data), Seq::empty()).sound(h),
        h.continues(h),
{
    let s = c.nodes[n];
    let next = s.on_snapshot(index, data);
    let log = h.full[n];
    assert(h.describes(c.founders, n, s));
    crate::upkeep::lemma_on_snapshot(s, index, data);
    if s.log.base_index() < index <= s.applied {
        crate::steps::lemma_goes_by_conf(c.founders, n, s, log, index as int);
        crate::upkeep::lemma_voters(s, index as int);
        crate::members::lemma_sorted_ids_of_ascending(s.voters_at(index as int));
        crate::steps::lemma_term_at(s.log, log, index as int);
        assert(crate::cluster::mirrors(next.log, log)) by {
            assert forall|i: int| next.log.holds(i) implies #[trigger] next.log.at(i) == log[i
                - 1] by {
                assert(s.log.holds(i));
                assert(s.log.at(i) == log[i - 1]);
            }
        }
    }
    assert(h.describes(c.founders, n, next));
    crate::steps::lemma_unrecorded(c, h, n, next, Seq::empty());
}

/// A client asks a node to hand over.
proof fn lemma_transfer(c: Cluster, h: History, n: NodeId, target: NodeId)
    requires
        c.sound(h),
        c.nodes.contains_key(n),
    ensures
        c.nodes[n].on_transfer(target) matches StepModel::Moved(next, out) ==> c.moved(
            n,
            next,
            out,
        ).sound(h),
        h.continues(h),
{
    let s = c.nodes[n];
    assert(h.describes(c.founders, n, s));
    crate::upkeep::lemma_on_transfer(s, target);
    let slot = crate::model::slot_of(s.progress, target);
    crate::upkeep::lemma_slot_of(s.progress, target);
    if s.role != Role::Leader || slot >= s.progress.len() {
        lemma_quiet(c, h, n, s, Seq::empty());
    } else {
        let mid = NodeModel { transfer: Some(target), election_elapsed: 0, ..s };
        assert(s.others().contains(target)) by {
            assert(s.progress[slot].peer == s.others()[slot]);
        }
        assert(mid.wf());
        if mid.progress[slot].matched == mid.log.last_index() {
            lemma_quiet(c, h, n, mid, mid.handover(slot));
        } else {
            let (next, out) = mid.sent_to(slot);
            lemma_quiet(c, h, n, mid, Seq::empty());
            crate::steps::lemma_moved_twice(c, n, mid, Seq::empty(), next, out);
            crate::steps::lemma_sends_to(c.moved(n, mid, Seq::empty()), h, n, slot);
            assert(Seq::<ActionModel>::empty() + out =~= out);
        }
    }
}

/// A leader puts other voters in place, one more or one fewer.
#[verifier::rlimit(40)]
proof fn lemma_change(c: Cluster, before: History, n: NodeId, ids: Seq<NodeId>) -> (g: History)
    requires
        c.sound(before),
        c.nodes.contains_key(n),
        c.nodes[n].role == Role::Leader,
        c.nodes[n].transfer is None,
        !c.nodes[n].change_in_flight(),
        c.nodes[n].log.last_index() + 1 < u64::MAX,
        c.nodes[n].log.term_at(c.nodes[n].commit as int) == Some(c.nodes[n].term)
            || c.uncontested(n),
        ids.len() > 0,
        crate::cluster::close(c.nodes[n].members, ids),
    ensures
        g.continues(before),
        c.moved(n, c.nodes[n].on_change(ids).0, c.nodes[n].on_change(ids).1).sound(g),
{
    let h = lemma_ready(c, before, n);
    let s = c.nodes[n];
    let log = h.full[n];
    let e = s.next_config(ids);
    let mid = s.changed(ids);
    let (next, out) = mid.broadcast_and_committed();
    let news = ActionModel::MembershipChanged { members: ids };
    assert(h.describes(c.founders, n, s));
    assert(h.rules(n, s));
    crate::upkeep::lemma_voters_after_config(s, ids);
    crate::upkeep::lemma_changed(s, ids);
    crate::types::law_config_entry_carries_its_members(
        s.term,
        (s.log.last_index() + 1) as Index,
        ids,
    );
    crate::members::lemma_sorted_ids_of_ascending(ids);
    assert(crate::model::voters_in(e) == Some(ids));
    lemma_conf_after(c.founders, log, e);
    assert forall|i: int| 0 <= i < mid.progress.len() implies (#[trigger] mid.progress[i]).matched
        <= h.acked(s.term, mid.progress[i].peer) by {
        let peer = mid.others()[i];
        let at = crate::model::slot_of(s.progress, peer);
        crate::upkeep::lemma_slot_of(s.progress, peer);
        if at < s.progress.len() {
            assert(s.progress[at].matched <= h.acked(s.term, s.progress[at].peer));
        }
    }
    let g = crate::steps::lemma_appends(c, h, n, mid, e);
    crate::steps::lemma_continues_through(before, h, g);
    let d = c.moved(n, mid, Seq::empty());
    assert(d.nodes.contains_key(n));
    assert(g.describes(d.founders, n, d.nodes[n]));
    lemma_quiet(d, g, n, mid, seq![news]);
    crate::steps::lemma_moved_twice(c, n, mid, Seq::empty(), mid, seq![news]);
    assert(Seq::<ActionModel>::empty() + seq![news] =~= seq![news]);
    let f = c.moved(n, mid, seq![news]);
    crate::steps::lemma_moved_twice(c, n, mid, seq![news], next, out);
    crate::steps::lemma_broadcasts_and_commits(f, g, n);
    g
}

/// A leader that is asked for a change of the voters as it should be is on record
/// as ready for one.
proof fn lemma_ready(c: Cluster, h: History, n: NodeId) -> (g: History)
    requires
        c.sound(h),
        c.nodes.contains_key(n),
        c.nodes[n].role == Role::Leader,
        !c.nodes[n].change_in_flight(),
        c.nodes[n].log.term_at(c.nodes[n].commit as int) == Some(c.nodes[n].term)
            || c.uncontested(n),
    ensures
        g.continues(h),
        c.sound(g),
        g.founded(c.founders, c.nodes[n].term, g.full[n].len() as int),
        forall|u: Term| #[trigger] g.early(u) ==> u <= c.nodes[n].term,
{
    let s = c.nodes[n];
    let p = h.full[n].len() as int;
    assert(h.continues(h));
    assert(h.describes(c.founders, n, s));
    assert(h.rules(n, s));
    if s.log.term_at(s.commit as int) == Some(s.term) {
        lemma_grounds(c, h, n);
        let (k, j) = choose|k: int, j: int|
            #![trigger h.held(c.founders, s.term, k, j)]
            h.held(c.founders, s.term, k, j) && j <= p && crate::model::config_end(
                h.leaders[s.term].log.take(p),
            ) <= k;
        assert(h.chosen(c.founders, s.term, k));
        assert forall|u: Term| #[trigger] h.early(u) implies u <= s.term by {
            if u > s.term {
                crate::safety::lemma_chosen_is_carried(h, c.founders, s.term, k, u);
                crate::safety::lemma_agree_at(
                    h.leaders[u].start,
                    h.leaders[s.term].log,
                    k,
                    k - 1,
                );
                assert(h.unseen(u, s.term));
            }
        }
        h
    } else {
        assert forall|u: Term| #[trigger] h.early(u) implies u <= s.term by {
            let m = h.leaders[u].node;
            assert(h.leads_well(c.founders, u));
            assert(h.camps.contains_key((u, m)));
            assert(c.nodes.contains_key(m));
            assert(h.describes(c.founders, m, c.nodes[m]));
            assert(h.votes_match(m, c.nodes[m]));
        }
        if h.grounded(c.founders, s.term, p) {
            h
        } else {
            lemma_uncontested(c, h, n)
        }
    }
}

/// An uncontested leader that has chosen nothing in its own term has its latest
/// configuration from its predecessors, who chose it.
proof fn lemma_inherits(c: Cluster, h: History, n: NodeId)
    requires
        c.sound(h),
        c.nodes.contains_key(n),
        c.nodes[n].role == Role::Leader,
        !c.nodes[n].change_in_flight(),
        !h.grounded(c.founders, c.nodes[n].term, h.full[n].len() as int),
    ensures
        ({
            let l = h.leaders[c.nodes[n].term];
            let end = crate::model::config_end(l.log);
            &&& end <= l.start.len()
            &&& crate::model::config_end(l.start) == end
            &&& h.settled(c.founders, l.start, end, (c.nodes[n].term - 1) as Term)
        }),
{
    let s = c.nodes[n];
    let log = h.full[n];
    let l = h.leaders[s.term];
    let end = crate::model::config_end(log);
    assert(h.describes(c.founders, n, s));
    assert(h.rules(n, s));
    assert(h.leads_well(c.founders, s.term));
    assert(log.take(log.len() as int) =~= log);
    lemma_config_is_committed(s, log);
    crate::upkeep::lemma_config_end(log);
    if end > 0 {
        let (t, k) = choose|t: Term, k: int|
            #![trigger h.chosen(c.founders, t, k)]
            h.chosen(c.founders, t, k) && t <= s.term && s.commit <= k && crate::cluster::agree(
                log,
                h.leaders[t].log,
                s.commit as int,
            );
        let j = choose|j: int| h.held(c.founders, t, k, j);
        assert(t < s.term) by {
            if t == s.term {
                assert(h.held(c.founders, s.term, k, j));
            }
        }
        assert(h.leads_well(c.founders, t));
        crate::safety::lemma_agree_at(log, h.leaders[t].log, s.commit as int, end - 1);
        crate::safety::lemma_leader_terms(h, c.founders, t, end - 1);
        crate::safety::lemma_leader_terms(h, c.founders, s.term, end - 1);
        crate::safety::lemma_config_end_prefix(log, log.len() as int, l.start.len() as int);
        assert(l.log.take(l.start.len() as int) == l.start);
        assert(crate::cluster::agree(l.start, log, end)) by {
            assert(l.start.take(end) =~= log.take(end));
        }
        crate::safety::lemma_agree_through(
            l.start,
            log,
            h.leaders[t].log,
            end,
            s.commit as int,
            end,
        );
        assert(h.chosen(c.founders, t, k));
    } else {
        crate::safety::lemma_config_end_prefix(log, log.len() as int, l.start.len() as int);
        assert(l.log.take(l.start.len() as int) == l.start);
    }
}

/// Without a change in flight the latest configuration is committed.
proof fn lemma_config_is_committed(s: NodeModel, log: Seq<EntryModel>)
    requires
        s.wf(),
        crate::cluster::mirrors(s.log, log),
        !s.change_in_flight(),
    ensures
        crate::model::config_end(log) <= s.commit,
{
    crate::upkeep::lemma_config_end(log);
    crate::upkeep::lemma_config_end(s.log.entries);
    let e = crate::model::config_end(log);
    if e > s.commit {
        assert(s.log.holds(e));
        assert(s.log.at(e) == log[e - 1]);
    }
}

/// A configuration entry that an uncontested leader's log holds, and that is of an
/// earlier term, it started out with.
proof fn lemma_started_with(c: Cluster, h: History, n: NodeId, e: EntryModel)
    requires
        c.sound(h),
        c.nodes.contains_key(n),
        c.nodes[n].role == Role::Leader,
        1 <= e.index <= h.full[n].len(),
        h.full[n][e.index - 1] == e,
    ensures
        h.covers(c.nodes[n].term, e),
{
    let s = c.nodes[n];
    let l = h.leaders[s.term];
    assert(h.describes(c.founders, n, s));
    assert(h.rules(n, s));
    assert(h.leads_well(c.founders, s.term));
    if e.term < s.term {
        crate::safety::lemma_leader_terms(h, c.founders, s.term, e.index - 1);
        assert(l.log.take(l.start.len() as int)[e.index - 1] == e);
    }
}

/// An uncontested leader covers every node's log.
#[verifier::rlimit(40)]
proof fn lemma_covers_node(c: Cluster, h: History, n: NodeId, m: NodeId)
    requires
        c.sound(h),
        c.nodes.contains_key(n),
        c.nodes[n].role == Role::Leader,
        c.uncontested(n),
        c.nodes.contains_key(m),
    ensures
        h.covered(c.nodes[n].term, h.full[m]),
{
    let s = c.nodes[n];
    let o = c.nodes[m];
    let log = h.full[m];
    let own = h.full[n];
    assert(h.describes(c.founders, n, s));
    assert(h.describes(c.founders, m, o));
    assert(h.rules(n, s));
    assert forall|i: int| 0 <= i < log.len() implies h.covers(s.term, #[trigger] log[i]) by {
        let e = log[i];
        if crate::model::voters_in(e) is Some {
            assert(e.index == i + 1);
            if i < o.log.base_index() {
                let (t, k) = choose|t: Term, k: int|
                    #![trigger h.chosen(c.founders, t, k)]
                    h.chosen(c.founders, t, k) && t <= o.term && o.commit <= k
                        && crate::cluster::agree(log, h.leaders[t].log, o.commit as int);
                assert(o.term <= s.term);
                crate::safety::lemma_chosen_is_held(h, c.founders, t, k, s.term);
                crate::safety::lemma_agree_at(log, h.leaders[t].log, o.commit as int, i);
                crate::safety::lemma_agree_at(own, h.leaders[t].log, k, i);
            } else {
                assert(o.log.holds(i + 1));
                assert(o.log.at(i + 1) == e);
                assert(s.log.entry(i + 1) == Some(e));
                assert(s.log.at(i + 1) == own[i]);
            }
            lemma_started_with(c, h, n, e);
        }
    }
}

/// An uncontested leader covers every message.
proof fn lemma_covers_message(c: Cluster, h: History, n: NodeId, to: NodeId, x: AppendModel)
    requires
        c.sound(h),
        c.nodes.contains_key(n),
        c.nodes[n].role == Role::Leader,
        c.uncontested(n),
        c.net.contains((to, MessageModel::AppendEntries(x))),
    ensures
        h.covered(c.nodes[n].term, x.entries),
{
    let s = c.nodes[n];
    assert(h.describes(c.founders, n, s));
    assert forall|i: int| 0 <= i < x.entries.len() implies h.covers(
        s.term,
        #[trigger] x.entries[i],
    ) by {
        let e = x.entries[i];
        if crate::model::voters_in(e) is Some {
            assert(s.log.entry(e.index as int) == Some(e));
            assert(s.log.at(e.index as int) == h.full[n][e.index - 1]);
            lemma_started_with(c, h, n, e);
        }
    }
}

/// The history in which the leadership of `term` is on record as one that changed the
/// voters early.
spec fn marked(h: History, term: Term) -> History {
    History {
        leaders: h.leaders.insert(term, Leadership { early: true, ..h.leaders[term] }),
        ..h
    }
}

/// Putting an uncontested leader on record only adds to the history, and fits it.
#[verifier::rlimit(40)]
proof fn lemma_marked_fits(c: Cluster, h: History, n: NodeId)
    requires
        c.sound(h),
        c.nodes.contains_key(n),
        c.nodes[n].role == Role::Leader,
        !c.nodes[n].change_in_flight(),
        c.uncontested(n),
        !h.grounded(c.founders, c.nodes[n].term, h.full[n].len() as int),
        forall|u: Term| #[trigger] h.early(u) ==> u <= c.nodes[n].term,
    ensures
        marked(h, c.nodes[n].term).continues(h),
        crate::safety::adds_only(marked(h, c.nodes[n].term), h, n, c.nodes[n].term),
        crate::safety::fits_early(c, h, marked(h, c.nodes[n].term)),
        forall|t: Term, m: NodeId| #[trigger]
            marked(h, c.nodes[n].term).acked(t, m) == h.acked(t, m),
{
    let s = c.nodes[n];
    let term = s.term;
    let log = h.full[n];
    assert(h.describes(c.founders, n, s));
    assert(h.rules(n, s));
    assert(h.leads_well(c.founders, term));
    let l = h.leaders[term];
    let g = marked(h, term);
    assert(log.take(log.len() as int) =~= log);
    assert forall|t: Term, m: NodeId| #[trigger] g.acked(t, m) == h.acked(t, m) by {}
    assert(crate::cluster::agree(log, log, log.len() as int));
    assert(g.continues(h));
    assert(crate::safety::adds_only(g, h, n, term));
    assert forall|u: Term, list: Seq<EntryModel>| h.covered(u, list) implies #[trigger] g.covered(
        u,
        list,
    ) by {
        assert forall|i: int| 0 <= i < list.len() implies g.covers(u, #[trigger] list[i]) by {
            assert(h.covers(u, list[i]));
        }
    }
    assert(crate::safety::fits_early(c, h, g)) by {
        assert forall|u: Term| #[trigger] g.early(u) && !h.early(u) implies {
            &&& forall|m: NodeId| #[trigger]
                c.nodes.contains_key(m) ==> g.covered(u, h.full[m]) && (c.nodes[m].role
                    == Role::Leader ==> c.nodes[m].term >= u)
            &&& forall|to: NodeId, x: AppendModel| #[trigger]
                c.net.contains((to, MessageModel::AppendEntries(x))) ==> g.covered(u, x.entries)
            &&& forall|x: (Term, NodeId)| #[trigger] h.camps.contains_key(x) ==> x.0 <= u
        } by {
            assert(u == term);
            assert forall|m: NodeId| #[trigger] c.nodes.contains_key(m) implies g.covered(
                u,
                h.full[m],
            ) && (c.nodes[m].role == Role::Leader ==> c.nodes[m].term >= u) by {
                lemma_covers_node(c, h, n, m);
            }
            assert forall|to: NodeId, x: AppendModel| #[trigger]
                c.net.contains((to, MessageModel::AppendEntries(x))) implies g.covered(
                u,
                x.entries,
            ) by {
                lemma_covers_message(c, h, n, to, x);
            }
            assert forall|x: (Term, NodeId)| #[trigger] h.camps.contains_key(x) implies x.0 <= u by {
                let m = x.1;
                assert(c.nodes.contains_key(m));
                assert(h.describes(c.founders, m, c.nodes[m]));
                assert(h.votes_match(m, c.nodes[m]));
                assert(h.camps.contains_key((x.0, m)));
            }
        }
    }
}

/// Such a leader still leads as the history says.
#[verifier::rlimit(40)]
proof fn lemma_marked_leads(c: Cluster, h: History, n: NodeId)
    requires
        c.sound(h),
        c.nodes.contains_key(n),
        c.nodes[n].role == Role::Leader,
        !c.nodes[n].change_in_flight(),
        c.uncontested(n),
        !h.grounded(c.founders, c.nodes[n].term, h.full[n].len() as int),
        forall|u: Term| #[trigger] h.early(u) ==> u <= c.nodes[n].term,
    ensures
        marked(h, c.nodes[n].term).leads_well(c.founders, c.nodes[n].term),
{
    let s = c.nodes[n];
    let term = s.term;
    let log = h.full[n];
    assert(h.describes(c.founders, n, s));
    assert(h.rules(n, s));
    assert(h.leads_well(c.founders, term));
    let l = h.leaders[term];
    let g = marked(h, term);
    lemma_marked_fits(c, h, n);
    lemma_inherits(c, h, n);
    crate::safety::lemma_rooted_lasts(h, g, l.log);
    crate::upkeep::lemma_config_end(l.start);
    crate::safety::lemma_settled_lasts(
        h,
        g,
        c.founders,
        l.start,
        crate::model::config_end(l.start),
        (term - 1) as Term,
        (term - 1) as Term,
    );
    assert(g.leads_well(c.founders, term)) by {
        assert forall|v: NodeId| #[trigger] l.electors.contains(v) implies {
            &&& g.votes.contains_key((term, v))
            &&& g.votes[(term, v)].candidate == n
            &&& g.remembers(term, v, term as int)
        } by {
            assert(h.votes.contains_key((term, v)));
            crate::safety::lemma_remembers_lasts(h, g, c.founders, term, v, term as int);
        }
        assert forall|p: int|
            l.start.len() <= p < l.log.len() && crate::model::voters_in(
                #[trigger] l.log[p],
            ) is Some implies g.founded(c.founders, term, p) by {
            assert(h.founded(c.founders, term, p));
            if h.grounded(c.founders, term, p) {
                crate::safety::lemma_grounded_lasts(h, g, c.founders, term, p);
            }
        }
        assert forall|m: NodeId| #[trigger] g.acked(term, m) <= l.log.len() by {
            assert(g.acked(term, m) == h.acked(term, m));
        }
        assert(g.acked(term, n) == h.acked(term, n));
    }
}

/// Such a leader is still as the history says.
#[verifier::rlimit(40)]
proof fn lemma_marked_describes(c: Cluster, h: History, n: NodeId)
    requires
        c.sound(h),
        c.nodes.contains_key(n),
        c.nodes[n].role == Role::Leader,
        !c.nodes[n].change_in_flight(),
        c.uncontested(n),
        !h.grounded(c.founders, c.nodes[n].term, h.full[n].len() as int),
        forall|u: Term| #[trigger] h.early(u) ==> u <= c.nodes[n].term,
    ensures
        marked(h, c.nodes[n].term).describes(c.founders, n, c.nodes[n]),
{
    let s = c.nodes[n];
    let term = s.term;
    let log = h.full[n];
    assert(h.describes(c.founders, n, s));
    assert(h.rules(n, s));
    assert(h.leads_well(c.founders, term));
    let l = h.leaders[term];
    let g = marked(h, term);
    lemma_marked_fits(c, h, n);
    crate::safety::lemma_rooted_lasts(h, g, log);
    crate::safety::lemma_settled_lasts(h, g, c.founders, log, s.commit as int, term, term);
    assert(g.describes(c.founders, n, s)) by {
        assert forall|u: Term| #[trigger] g.early(u) implies g.covered(u, log) by {
            if !h.early(u) {
                lemma_covers_node(c, h, n, n);
            }
        }
        assert forall|t: Term| #[trigger] g.acked(t, n) > 0 implies t <= term
            && g.leaders.contains_key(t) by {
            assert(h.acked(t, n) > 0);
        }
        assert forall|t: Term, k: int|
            #![trigger g.retains(log, t, k, term + 1)]
            1 <= k <= g.acked(t, n) implies g.retains(log, t, k, term + 1) by {
            assert(g.acked(t, n) == h.acked(t, n));
            assert(h.retains(log, t, k, term + 1));
            assert(h.leaders.contains_key(t));
            assert(h.leads_well(c.founders, t));
            crate::safety::lemma_retains_lasts(h, g, log, t, k, term + 1, term + 1);
        }
        assert(g.votes_match(n, s)) by {
            assert forall|t: Term| #[trigger]
                g.leaders.contains_key(t) && g.leaders[t].node == n implies t <= term by {
                assert(h.leaders.contains_key(t));
            }
        }
        assert(g.rules(n, s)) by {
            assert forall|i: int| 0 <= i < s.progress.len() implies (
            #[trigger] s.progress[i]).matched <= g.acked(term, s.progress[i].peer) by {
                assert(g.acked(term, s.progress[i].peer) == h.acked(term, s.progress[i].peer));
            }
        }
    }
}

/// Such a leader's vote and candidacy are still as the history says.
#[verifier::rlimit(40)]
proof fn lemma_marked_votes(c: Cluster, h: History, n: NodeId)
    requires
        c.sound(h),
        c.nodes.contains_key(n),
        c.nodes[n].role == Role::Leader,
        !c.nodes[n].change_in_flight(),
        c.uncontested(n),
        !h.grounded(c.founders, c.nodes[n].term, h.full[n].len() as int),
        forall|u: Term| #[trigger] h.early(u) ==> u <= c.nodes[n].term,
    ensures
        ({
            let g = marked(h, c.nodes[n].term);
            let term = c.nodes[n].term;
            &&& g.votes.contains_key((term, n)) ==> g.voted_well(c.founders, term, n)
            &&& g.camps.contains_key((term, n)) ==> g.stood_well(c.founders, term, n)
        }),
{
    let term = c.nodes[n].term;
    let g = marked(h, term);
    lemma_marked_fits(c, h, n);
    assert(g.leaders.contains_key(term) ==> g.acked(term, n) <= g.leaders[term].log.len()) by {
        lemma_marked_leads(c, h, n);
    }
    crate::safety::lemma_old_records(c, h, g, n, term);
    assert(g.votes == h.votes);
    assert(g.camps == h.camps);
}

/// A step in which a node stays as it is and says nothing is none.
proof fn lemma_no_move(c: Cluster, n: NodeId)
    requires
        c.nodes.contains_key(n),
    ensures
        c.moved(n, c.nodes[n], Seq::empty()) == c,
{
    let d = c.moved(n, c.nodes[n], Seq::empty());
    assert(d.nodes =~= c.nodes);
    assert(d.net =~= c.net);
    assert(d.applied =~= c.applied);
}

/// The cluster is sound by that history too.
proof fn lemma_marked_sound(c: Cluster, h: History, n: NodeId)
    requires
        c.sound(h),
        c.nodes.contains_key(n),
        c.nodes[n].role == Role::Leader,
        !c.nodes[n].change_in_flight(),
        c.uncontested(n),
        !h.grounded(c.founders, c.nodes[n].term, h.full[n].len() as int),
        forall|u: Term| #[trigger] h.early(u) ==> u <= c.nodes[n].term,
    ensures
        c.sound(marked(h, c.nodes[n].term)),
{
    let g = marked(h, c.nodes[n].term);
    lemma_marked_fits(c, h, n);
    lemma_marked_leads(c, h, n);
    lemma_marked_describes(c, h, n);
    lemma_marked_votes(c, h, n);
    lemma_no_move(c, n);
    crate::safety::lemma_move(c, h, g, n, c.nodes[n], Seq::empty());
}

/// An uncontested leader that is about to change the voters is put on record as
/// one.
#[verifier::rlimit(40)]
proof fn lemma_uncontested(c: Cluster, h: History, n: NodeId) -> (g: History)
    requires
        c.sound(h),
        c.nodes.contains_key(n),
        c.nodes[n].role == Role::Leader,
        !c.nodes[n].change_in_flight(),
        c.uncontested(n),
        !h.grounded(c.founders, c.nodes[n].term, h.full[n].len() as int),
        forall|u: Term| #[trigger] h.early(u) ==> u <= c.nodes[n].term,
    ensures
        g.continues(h),
        c.sound(g),
        g.founded(c.founders, c.nodes[n].term, g.full[n].len() as int),
        forall|u: Term| #[trigger] g.early(u) ==> u <= c.nodes[n].term,
{
    let s = c.nodes[n];
    let term = s.term;
    let log = h.full[n];
    let g = marked(h, term);
    assert(g.continues(h)) by {
        lemma_marked_fits(c, h, n);
    }
    assert(c.sound(g)) by {
        lemma_marked_sound(c, h, n);
    }
    assert(g.founded(c.founders, term, log.len() as int)) by {
        assert(h.describes(c.founders, n, s));
        assert(h.rules(n, s));
        lemma_inherits(c, h, n);
        assert(log.take(log.len() as int) =~= log);
    }
    assert forall|u: Term| #[trigger] g.early(u) implies u <= term by {
        if u != term {
            assert(h.early(u));
        }
    }
    g
}

/// A leader that has committed an entry of its own term, and its latest
/// configuration, is ready for another.
proof fn lemma_grounds(c: Cluster, h: History, n: NodeId)
    requires
        c.sound(h),
        c.nodes.contains_key(n),
        c.nodes[n].role == Role::Leader,
        !c.nodes[n].change_in_flight(),
        c.nodes[n].log.term_at(c.nodes[n].commit as int) == Some(c.nodes[n].term),
    ensures
        h.grounded(c.founders, c.nodes[n].term, h.full[n].len() as int),
{
    let s = c.nodes[n];
    let log = h.full[n];
    assert(h.describes(c.founders, n, s));
    assert(h.rules(n, s));
    assert(h.leads_well(c.founders, s.term));
    assert(s.commit > 0);
    crate::steps::lemma_term_at(s.log, log, s.commit as int);
    let (t, k) = choose|t: Term, k: int|
        #![trigger h.chosen(c.founders, t, k)]
        h.chosen(c.founders, t, k) && t <= s.term && s.commit <= k && crate::cluster::agree(
            log,
            h.leaders[t].log,
            s.commit as int,
        );
    let j = choose|j: int| h.held(c.founders, t, k, j);
    assert(h.leads_well(c.founders, t));
    crate::safety::lemma_agree_at(log, h.leaders[t].log, s.commit as int, s.commit - 1);
    crate::safety::lemma_leader_terms(h, c.founders, t, s.commit - 1);
    assert(t == s.term);
    assert(log.take(log.len() as int) =~= log);
    lemma_config_is_committed(s, log);
    assert(h.held(c.founders, s.term, k, j));
}

/// A client asks for a voter to be added.
proof fn lemma_adds(c: Cluster, h: History, n: NodeId, id: NodeId) -> (g: History)
    requires
        c.sound(h),
        c.nodes.contains_key(n),
        c.nodes[n].has_room_for(EventModel::AddServer(id)),
        c.heeds(n, EventModel::AddServer(id)),
    ensures
        g.continues(h),
        match c.nodes[n].on_add(id) {
            StepModel::Refused(_) => c.sound(g),
            StepModel::Moved(next, out) => c.moved(n, next, out).sound(g),
        },
{
    let s = c.nodes[n];
    let ids = crate::members::insert_id(s.members, id);
    assert(h.describes(c.founders, n, s));
    assert(h.continues(h));
    if s.refusal() is Some || s.change_in_flight() {
        h
    } else if !s.members.contains(id) {
        crate::members::lemma_insert_id(s.members, id);
        assert(crate::cluster::differ_in(s.members, ids, id));
        lemma_change(c, h, n, ids)
    } else {
        lemma_quiet(c, h, n, s, Seq::empty());
        h
    }
}

/// A client asks for a voter to be removed.
proof fn lemma_removes(c: Cluster, h: History, n: NodeId, id: NodeId) -> (g: History)
    requires
        c.sound(h),
        c.nodes.contains_key(n),
        c.nodes[n].has_room_for(EventModel::RemoveServer(id)),
        c.heeds(n, EventModel::RemoveServer(id)),
    ensures
        g.continues(h),
        match c.nodes[n].on_remove(id) {
            StepModel::Refused(_) => c.sound(g),
            StepModel::Moved(next, out) => c.moved(n, next, out).sound(g),
        },
{
    let s = c.nodes[n];
    let ids = crate::members::without(s.members, id);
    assert(h.describes(c.founders, n, s));
    assert(h.continues(h));
    if s.refusal() is Some || s.change_in_flight() {
        h
    } else if s.members.contains(id) && s.members.len() > 1 {
        crate::members::lemma_without(s.members, id);
        assert(crate::cluster::differ_in(s.members, ids, id));
        lemma_change(c, h, n, ids)
    } else {
        lemma_quiet(c, h, n, s, Seq::empty());
        h
    }
}

/// A node crashes and comes back.
proof fn lemma_restart(c: Cluster, h: History, n: NodeId, cfg: ConfigModel)
    requires
        c.sound(h),
        c.nodes.contains_key(n),
        c.fits(n, cfg),
    ensures
        c.after(Move::Restarts { node: n, cfg }).sound(h),
        h.continues(h),
{
    reveal(Cluster::after);
    let s = c.nodes[n];
    let next = NodeModel::initial(cfg, s.log);
    let log = h.full[n];
    assert(h.describes(c.founders, n, s));
    crate::upkeep::lemma_initial(cfg, s.log);
    crate::safety::lemma_settled_moves(
        h,
        c.founders,
        log,
        log,
        s.commit as int,
        s.log.base_index(),
        s.term,
        s.term,
    );
    assert(h.describes(c.founders, n, next));
    crate::steps::lemma_unrecorded(c, h, n, next, Seq::empty());
    let d = c.after(Move::Restarts { node: n, cfg });
    let e = c.moved(n, next, Seq::empty());
    assert(d.net =~= e.net);
    assert(d.applied =~= e.applied);
    assert(d.nodes =~= e.nodes);
}

/// Every step that can be taken keeps the cluster as its history says.
pub proof fn lemma_every_move(c: Cluster, h: History, m: Move) -> (g: History)
    requires
        c.sound(h),
        c.allows(m),
    ensures
        g.continues(h),
        c.after(m).sound(g),
        c.after(m).founders == c.founders,
        c.after(m).nodes.dom() == c.nodes.dom(),
{
    reveal(Cluster::after);
    assert(c.after(m).nodes.dom() =~= c.nodes.dom());
    match m {
        Move::Restarts { node, cfg } => {
            assert(c.nodes.contains_key(node));
            lemma_restart(c, h, node, cfg);
            h
        },
        Move::Takes { node, event } => {
            assert(c.nodes.contains_key(node));
            assert(h.continues(h));
            match event {
                EventModel::Tick => lemma_tick(c, h, node),
                EventModel::Message(message) => lemma_message(c, h, node, message),
                EventModel::Propose(command) => lemma_propose(c, h, node, command),
                EventModel::Snapshot { index, data } => {
                    lemma_compacts(c, h, node, index, data);
                    h
                },
                EventModel::TransferLeadership(target) => {
                    lemma_transfer(c, h, node, target);
                    h
                },
                EventModel::AddServer(id) => {
                    lemma_adds(c, h, node, id)
                },
                EventModel::RemoveServer(id) => {
                    lemma_removes(c, h, node, id)
                },
            }
        },
    }
}

// ---- runs ----------------------------------------------------------------

/// A new cluster is as a history in which nothing has happened says.
pub proof fn lemma_new_cluster(c: Cluster) -> (h: History)
    requires
        c.is_new(),
    ensures
        c.sound(h),
{
    let h = History {
        full: Map::new(|n: NodeId| true, |n: NodeId| Seq::<EntryModel>::empty()),
        leaders: Map::empty(),
        votes: Map::empty(),
        camps: Map::empty(),
        acks: Map::empty(),
    };
    assert forall|n: NodeId| #[trigger] c.nodes.contains_key(n) implies h.describes(
        c.founders,
        n,
        c.nodes[n],
    ) by {
        let s = c.nodes[n];
        let log = LogModel::empty();
        crate::upkeep::lemma_initial(s.cfg, log);
        assert(s.wf());
        assert(h.full[n] == Seq::<EntryModel>::empty());
    }
    h
}

/// A run that can be taken has histories at any moment and at its end, the second
/// going on from the first.
pub proof fn lemma_histories(c: Cluster, moves: Seq<Move>, i: int) -> (r: (History, History))
    requires
        c.is_new(),
        c.allows_run(moves),
        0 <= i <= moves.len(),
    ensures
        c.run(moves.take(i)).sound(r.0),
        c.run(moves).sound(r.1),
        r.1.continues(r.0),
        c.run(moves.take(i)).founders == c.founders,
        c.run(moves).founders == c.founders,
        c.run(moves.take(i)).nodes.dom() == c.nodes.dom(),
        c.run(moves).nodes.dom() == c.nodes.dom(),
    decreases moves.len(),
{
    if moves.len() == 0 {
        assert(moves.take(i) =~= moves);
        let h = lemma_new_cluster(c);
        assert(h.continues(h));
        (h, h)
    } else {
        let before = moves.drop_last();
        let at = if i < moves.len() {
            i
        } else {
            moves.len() - 1
        };
        let (g, h) = lemma_histories(c, before, at);
        assert(before.take(at) =~= moves.take(at));
        let d = c.run(before);
        let next = lemma_every_move(d, h, moves.last());
        crate::steps::lemma_continues_through(g, h, next);
        if i < moves.len() {
            (g, next)
        } else {
            assert(moves.take(i) =~= moves);
            assert(next.continues(next));
            (next, next)
        }
    }
}

// ---- guarantees ----------------------------------------------------------

/// A change of the voters by one leaves no room for two majorities apart: one of the
/// voters before and one of the voters after have a voter in common.
pub proof fn law_majorities_before_and_after_a_change_overlap(
    members: Seq<NodeId>,
    id: NodeId,
    p: spec_fn(NodeId) -> bool,
    q: spec_fn(NodeId) -> bool,
)
    requires
        crate::members::ascending(members),
        crate::cluster::majority(members, p),
        crate::cluster::majority(crate::members::insert_id(members, id), q)
            || crate::cluster::majority(crate::members::without(members, id), q),
    ensures
        exists|v: NodeId| members.contains(v) && #[trigger] p(v) && q(v),
{
    let more = crate::members::insert_id(members, id);
    let fewer = crate::members::without(members, id);
    crate::members::lemma_insert_id(members, id);
    crate::members::lemma_without(members, id);
    assert(crate::cluster::differ_in(members, more, id));
    assert(crate::cluster::differ_in(members, fewer, id));
    let mine = |v: NodeId| members.contains(v) && p(v);
    assert forall|i: int| 0 <= i < members.len() && p(#[trigger] members[i]) implies mine(
        members[i],
    ) by {
        assert(members.contains(members[i]));
    }
    crate::safety::lemma_majority_widens(members, p, mine);
    let other = if crate::cluster::majority(more, q) {
        more
    } else {
        fewer
    };
    let v = crate::safety::lemma_close_majorities_meet(members, other, mine, q);
    assert(members.contains(v) && p(v) && q(v));
}

/// Election safety: a term has at most one leader, in the whole of a run. Whatever
/// is delivered, lost, repeated or reordered, and whoever crashes, two nodes that
/// lead the same term, at whatever moments, are the same node.
pub proof fn law_a_term_has_at_most_one_leader(
    c: Cluster,
    moves: Seq<Move>,
    i: int,
    a: NodeId,
    b: NodeId,
)
    requires
        c.is_new(),
        c.allows_run(moves),
        0 <= i <= moves.len(),
        c.nodes.contains_key(a),
        c.nodes.contains_key(b),
        c.run(moves.take(i)).nodes[a].role == Role::Leader,
        c.run(moves).nodes[b].role == Role::Leader,
        c.run(moves.take(i)).nodes[a].term == c.run(moves).nodes[b].term,
    ensures
        a == b,
{
    let (g, h) = lemma_histories(c, moves, i);
    let d = c.run(moves.take(i));
    let e = c.run(moves);
    assert(d.nodes.contains_key(a));
    assert(e.nodes.contains_key(b));
    assert(g.describes(c.founders, a, d.nodes[a]));
    assert(h.describes(c.founders, b, e.nodes[b]));
    assert(g.leaders.contains_key(d.nodes[a].term));
}

/// One vote per term: whatever granted votes a node announces for a term, in the
/// whole of a run, go to one candidate.
pub proof fn law_a_node_votes_once_per_term(
    c: Cluster,
    moves: Seq<Move>,
    to: NodeId,
    other: NodeId,
    r: RequestVoteReply,
    q: RequestVoteReply,
)
    requires
        c.is_new(),
        c.allows_run(moves),
        c.run(moves).net.contains((to, MessageModel::RequestVoteReply(r))),
        c.run(moves).net.contains((other, MessageModel::RequestVoteReply(q))),
        r.vote_granted,
        q.vote_granted,
        r.term == q.term,
        r.from == q.from,
    ensures
        to == other,
{
    let (g, h) = lemma_histories(c, moves, 0);
    assert(h.vouches(c.founders, to, MessageModel::RequestVoteReply(r)));
    assert(h.vouches(c.founders, other, MessageModel::RequestVoteReply(q)));
}

/// Log matching: if two logs hold an entry with the same index and term, they hold
/// the same entries up to there.
pub proof fn law_logs_match(
    c: Cluster,
    moves: Seq<Move>,
    i: int,
    a: NodeId,
    b: NodeId,
    index: int,
    at: int,
)
    requires
        c.is_new(),
        c.allows_run(moves),
        0 <= i <= moves.len(),
        c.nodes.contains_key(a),
        c.nodes.contains_key(b),
        c.run(moves.take(i)).nodes[a].log.holds(index),
        c.run(moves).nodes[b].log.holds(index),
        c.run(moves.take(i)).nodes[a].log.at(index).term == c.run(moves).nodes[b].log.at(
            index,
        ).term,
        at <= index,
        c.run(moves.take(i)).nodes[a].log.holds(at),
        c.run(moves).nodes[b].log.holds(at),
    ensures
        c.run(moves.take(i)).nodes[a].log.at(at) == c.run(moves).nodes[b].log.at(at),
{
    let (g, h) = lemma_histories(c, moves, i);
    let s = c.run(moves.take(i)).nodes[a];
    let t = c.run(moves).nodes[b];
    assert(c.run(moves.take(i)).nodes.contains_key(a));
    assert(c.run(moves).nodes.contains_key(b));
    assert(g.describes(c.founders, a, s));
    assert(h.describes(c.founders, b, t));
    let p = g.full[a];
    let q = h.full[b];
    crate::safety::lemma_rooted_lasts(g, h, p);
    assert(s.log.at(index) == p[index - 1]);
    assert(t.log.at(index) == q[index - 1]);
    crate::safety::lemma_rooted_logs_agree(h, p, q, index - 1);
    crate::safety::lemma_agree_at(p, q, index, at - 1);
    assert(s.log.at(at) == p[at - 1]);
    assert(t.log.at(at) == q[at - 1]);
}

/// Whatever two nodes have committed, at whatever moments of a run, they have
/// committed alike. With one node twice: what is committed is never changed.
pub proof fn law_committed_entries_are_final(
    c: Cluster,
    moves: Seq<Move>,
    i: int,
    a: NodeId,
    b: NodeId,
    index: int,
)
    requires
        c.is_new(),
        c.allows_run(moves),
        0 <= i <= moves.len(),
        c.nodes.contains_key(a),
        c.nodes.contains_key(b),
        index <= c.run(moves.take(i)).nodes[a].commit,
        index <= c.run(moves).nodes[b].commit,
        c.run(moves.take(i)).nodes[a].log.holds(index),
        c.run(moves).nodes[b].log.holds(index),
    ensures
        c.run(moves.take(i)).nodes[a].log.at(index) == c.run(moves).nodes[b].log.at(index),
{
    let (g, h) = lemma_histories(c, moves, i);
    let s = c.run(moves.take(i)).nodes[a];
    let t = c.run(moves).nodes[b];
    assert(c.run(moves.take(i)).nodes.contains_key(a));
    assert(c.run(moves).nodes.contains_key(b));
    assert(g.describes(c.founders, a, s));
    assert(h.describes(c.founders, b, t));
    let p = g.full[a];
    let q = h.full[b];
    crate::safety::lemma_settled_lasts(g, h, c.founders, p, s.commit as int, s.term, s.term);
    lemma_settled_agree(h, c.founders, p, s.commit as int, s.term, q, t.commit as int, t.term, index);
    crate::safety::lemma_agree_at(p, q, index, index - 1);
    assert(s.log.at(index) == p[index - 1]);
    assert(t.log.at(index) == q[index - 1]);
}

/// Settled logs agree as far as both are settled.
proof fn lemma_settled_agree(
    h: History,
    founders: Seq<NodeId>,
    a: Seq<EntryModel>,
    m: int,
    s: Term,
    b: Seq<EntryModel>,
    n: int,
    t: Term,
    i: int,
)
    requires
        h.coherent(founders),
        crate::members::ascending(founders),
        h.settled(founders, a, m, s),
        h.settled(founders, b, n, t),
        0 < i <= m,
        i <= n,
    ensures
        crate::cluster::agree(a, b, i),
{
    let (u, k) = choose|u: Term, k: int|
        #![trigger h.chosen(founders, u, k)]
        h.chosen(founders, u, k) && u <= s && m <= k && crate::cluster::agree(
            a,
            h.leaders[u].log,
            m,
        );
    let (v, l) = choose|v: Term, l: int|
        #![trigger h.chosen(founders, v, l)]
        h.chosen(founders, v, l) && v <= t && n <= l && crate::cluster::agree(
            b,
            h.leaders[v].log,
            n,
        );
    crate::safety::lemma_chosen_agree(h, founders, u, k, v, l, i);
    crate::safety::lemma_agree_through(a, h.leaders[u].log, h.leaders[v].log, m, i, i);
    crate::safety::lemma_agree_less(b, h.leaders[v].log, n, i);
    crate::safety::lemma_agree_through(a, h.leaders[v].log, b, i, i, i);
}

/// Leader completeness: what a node has committed by some moment, every leader of
/// its term or a later one has from then on.
pub proof fn law_leaders_have_what_was_committed(
    c: Cluster,
    moves: Seq<Move>,
    i: int,
    a: NodeId,
    b: NodeId,
    index: int,
)
    requires
        c.is_new(),
        c.allows_run(moves),
        0 <= i <= moves.len(),
        c.nodes.contains_key(a),
        c.nodes.contains_key(b),
        c.run(moves).nodes[b].role == Role::Leader,
        c.run(moves).nodes[b].term >= c.run(moves.take(i)).nodes[a].term,
        index <= c.run(moves.take(i)).nodes[a].commit,
    ensures
        index <= c.run(moves).nodes[b].log.last_index(),
        c.run(moves.take(i)).nodes[a].log.holds(index) && c.run(moves).nodes[b].log.holds(index)
            ==> c.run(moves.take(i)).nodes[a].log.at(index) == c.run(moves).nodes[b].log.at(index),
{
    let (g, h) = lemma_histories(c, moves, i);
    let s = c.run(moves.take(i)).nodes[a];
    let t = c.run(moves).nodes[b];
    assert(c.run(moves.take(i)).nodes.contains_key(a));
    assert(c.run(moves).nodes.contains_key(b));
    assert(g.describes(c.founders, a, s));
    assert(h.describes(c.founders, b, t));
    assert(h.rules(b, t));
    let p = g.full[a];
    let q = h.full[b];
    if index > 0 {
        crate::safety::lemma_settled_lasts(g, h, c.founders, p, s.commit as int, s.term, s.term);
        let (u, k) = choose|u: Term, k: int|
            #![trigger h.chosen(c.founders, u, k)]
            h.chosen(c.founders, u, k) && u <= s.term && s.commit <= k && crate::cluster::agree(
                p,
                h.leaders[u].log,
                s.commit as int,
            );
        crate::safety::lemma_chosen_is_held(h, c.founders, u, k, t.term);
        if s.log.holds(index) && t.log.holds(index) {
            crate::safety::lemma_agree_at(p, h.leaders[u].log, s.commit as int, index - 1);
            crate::safety::lemma_agree_at(q, h.leaders[u].log, k, index - 1);
            assert(s.log.at(index) == p[index - 1]);
            assert(t.log.at(index) == q[index - 1]);
        }
    }
}

/// The same for a leader met before: one of a later term has what was committed in
/// an earlier one even when the commit is only learnt of afterwards.
pub proof fn law_later_leaders_had_what_was_committed(
    c: Cluster,
    moves: Seq<Move>,
    i: int,
    a: NodeId,
    b: NodeId,
    index: int,
)
    requires
        c.is_new(),
        c.allows_run(moves),
        0 <= i <= moves.len(),
        c.nodes.contains_key(a),
        c.nodes.contains_key(b),
        c.run(moves.take(i)).nodes[b].role == Role::Leader,
        c.run(moves.take(i)).nodes[b].term > c.run(moves).nodes[a].term,
        index <= c.run(moves).nodes[a].commit,
    ensures
        index <= c.run(moves.take(i)).nodes[b].log.last_index(),
        c.run(moves).nodes[a].log.holds(index) && c.run(moves.take(i)).nodes[b].log.holds(index)
            ==> c.run(moves).nodes[a].log.at(index) == c.run(moves.take(i)).nodes[b].log.at(index),
{
    let (g, h) = lemma_histories(c, moves, i);
    let s = c.run(moves).nodes[a];
    let t = c.run(moves.take(i)).nodes[b];
    assert(c.run(moves).nodes.contains_key(a));
    assert(c.run(moves.take(i)).nodes.contains_key(b));
    assert(h.describes(c.founders, a, s));
    assert(g.describes(c.founders, b, t));
    assert(g.rules(b, t));
    let p = h.full[a];
    let q = g.full[b];
    if index > 0 {
        let (u, k) = choose|u: Term, k: int|
            #![trigger h.chosen(c.founders, u, k)]
            h.chosen(c.founders, u, k) && u <= s.term && s.commit <= k && crate::cluster::agree(
                p,
                h.leaders[u].log,
                s.commit as int,
            );
        assert(h.leaders.contains_key(t.term));
        crate::safety::lemma_chosen_is_carried(h, c.founders, u, k, t.term);
        let start = g.leaders[t.term].start;
        assert(g.leads_well(c.founders, t.term));
        assert(crate::cluster::agree(q, start, start.len() as int)) by {
            assert(start.take(start.len() as int) =~= start);
        }
        crate::safety::lemma_agree_through(
            q,
            start,
            h.leaders[u].log,
            start.len() as int,
            k,
            k,
        );
        if s.log.holds(index) && t.log.holds(index) {
            crate::safety::lemma_agree_at(p, h.leaders[u].log, s.commit as int, index - 1);
            crate::safety::lemma_agree_at(q, h.leaders[u].log, k, index - 1);
            assert(s.log.at(index) == p[index - 1]);
            assert(t.log.at(index) == q[index - 1]);
        }
    }
}

/// State machine safety: whatever two nodes ever apply at one index is the same
/// command of the same term.
pub proof fn law_nodes_apply_the_same_commands(
    c: Cluster,
    moves: Seq<Move>,
    x: Applied,
    y: Applied,
)
    requires
        c.is_new(),
        c.allows_run(moves),
        c.run(moves).applied.contains(x),
        c.run(moves).applied.contains(y),
        x.index == y.index,
    ensures
        x.term == y.term,
        x.command == y.command,
{
    let (g, h) = lemma_histories(c, moves, 0);
    assert(h.justifies(c.founders, x));
    assert(h.justifies(c.founders, y));
    let i = x.index as int;
    let (u, k) = choose|u: Term, k: int|
        #![trigger h.chosen(c.founders, u, k)]
        h.chosen(c.founders, u, k) && 1 <= x.index <= k && {
            let e = h.leaders[u].log[x.index - 1];
            e.term == x.term && e.command == x.command
        };
    let (v, l) = choose|v: Term, l: int|
        #![trigger h.chosen(c.founders, v, l)]
        h.chosen(c.founders, v, l) && 1 <= y.index <= l && {
            let e = h.leaders[v].log[y.index - 1];
            e.term == y.term && e.command == y.command
        };
    crate::safety::lemma_chosen_agree(h, c.founders, u, k, v, l, i);
    crate::safety::lemma_agree_at(h.leaders[u].log, h.leaders[v].log, i, i - 1);
}

} // verus!
