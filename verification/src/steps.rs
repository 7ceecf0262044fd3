//! What each piece of a transition does to a cluster.
//!
//! Every lemma here takes a cluster that is as its history says, has one node
//! make one piece of a transition, and gives the history that the cluster is then
//! as sound with.

use crate::cluster::{Applied, Ballot, Cluster, History, Leadership};
use crate::log::LogModel;
use crate::model::{ActionModel, NodeModel, Progress};
use crate::types::{EntryModel, Index, NodeId, Role, Term};
use vstd::prelude::*;

verus! {

// ---- putting pieces together ---------------------------------------------

/// Two pieces in a row are one.
pub proof fn lemma_moved_twice(
    c: Cluster,
    n: NodeId,
    mid: NodeModel,
    first: Seq<ActionModel>,
    next: NodeModel,
    second: Seq<ActionModel>,
)
    ensures
        c.moved(n, mid, first).moved(n, next, second) == c.moved(n, next, first + second),
        c.moved(n, mid, first).nodes[n] == mid,
        c.moved(n, mid, first).nodes.contains_key(n),
        c.moved(n, mid, first).founders == c.founders,
{
    let both = first + second;
    assert forall|a: ActionModel| #[trigger] both.contains(a) <==> (first.contains(a)
        || second.contains(a)) by {
        if first.contains(a) {
            let i = choose|i: int| 0 <= i < first.len() && first[i] == a;
            assert(both[i] == a);
        }
        if second.contains(a) {
            let i = choose|i: int| 0 <= i < second.len() && second[i] == a;
            assert(both[first.len() + i] == a);
        }
        if both.contains(a) {
            let i = choose|i: int| 0 <= i < both.len() && both[i] == a;
            if i < first.len() {
                assert(first[i] == a);
            } else {
                assert(second[i - first.len()] == a);
            }
        }
    }
    let x = c.moved(n, mid, first).moved(n, next, second);
    let y = c.moved(n, next, both);
    assert(x.nodes =~= y.nodes);
    assert(x.net =~= y.net);
    assert(x.applied =~= y.applied);
}

/// Going on is transitive.
pub proof fn lemma_continues_through(a: History, b: History, c: History)
    requires
        b.continues(a),
        c.continues(b),
    ensures
        c.continues(a),
{
    assert forall|t: Term| #[trigger] a.leaders.contains_key(t) implies {
        &&& c.leaders.contains_key(t)
        &&& c.leaders[t].node == a.leaders[t].node
        &&& c.leaders[t].electors == a.leaders[t].electors
        &&& c.leaders[t].start == a.leaders[t].start
        &&& a.leaders[t].early ==> c.leaders[t].early
        &&& crate::cluster::agree(c.leaders[t].log, a.leaders[t].log, a.leaders[t].log.len() as int)
    } by {
        assert(b.leaders.contains_key(t));
        crate::safety::lemma_agree_through(
            c.leaders[t].log,
            b.leaders[t].log,
            a.leaders[t].log,
            b.leaders[t].log.len() as int,
            a.leaders[t].log.len() as int,
            a.leaders[t].log.len() as int,
        );
    }
    assert forall|x: (Term, NodeId)| #[trigger] a.votes.contains_key(x) implies c.votes.contains_key(
        x,
    ) && c.votes[x] == a.votes[x] by {
        assert(b.votes.contains_key(x));
    }
    assert forall|x: (Term, NodeId)| #[trigger] a.camps.contains_key(x) implies c.camps.contains_key(
        x,
    ) && c.camps[x] == a.camps[x] by {
        assert(b.camps.contains_key(x));
    }
    assert forall|t: Term, n: NodeId| c.acked(t, n) >= #[trigger] a.acked(t, n) by {
        assert(b.acked(t, n) >= a.acked(t, n));
        assert(c.acked(t, n) >= b.acked(t, n));
    }
}

/// Everything in a list of actions is true and justified.
pub open spec fn honest(
    h: History,
    founders: Seq<NodeId>,
    n: NodeId,
    out: Seq<ActionModel>,
) -> bool {
    &&& forall|i: int|
        0 <= i < out.len() ==> (#[trigger] out[i] matches ActionModel::Send { to, message }
            ==> h.vouches(founders, to, message))
    &&& forall|i: int|
        0 <= i < out.len() ==> (#[trigger] out[i] matches ActionModel::Apply {
            index,
            term,
            command,
        } ==> h.justifies(founders, Applied { node: n, index, term, command }))
}

/// Lists of honest actions go together.
pub proof fn lemma_honest_both(
    h: History,
    founders: Seq<NodeId>,
    n: NodeId,
    a: Seq<ActionModel>,
    b: Seq<ActionModel>,
)
    requires
        honest(h, founders, n, a),
        honest(h, founders, n, b),
    ensures
        honest(h, founders, n, a + b),
{
    let both = a + b;
    assert forall|i: int| 0 <= i < both.len() implies #[trigger] both[i] == (if i < a.len() {
        a[i]
    } else {
        b[i - a.len()]
    }) by {}
}

/// A node moves and adds nothing to the record.
pub proof fn lemma_unrecorded(
    c: Cluster,
    h: History,
    n: NodeId,
    next: NodeModel,
    out: Seq<ActionModel>,
)
    requires
        c.sound(h),
        c.nodes.contains_key(n),
        next.term >= c.nodes[n].term,
        h.describes(c.founders, n, next),
        honest(h, c.founders, n, out),
    ensures
        c.moved(n, next, out).sound(h),
        h.continues(h),
{
    assert(crate::safety::adds_only(h, h, n, next.term));
    crate::safety::lemma_move(c, h, h, n, next, out);
}

// ---- logs ----------------------------------------------------------------

/// The last term of a log is that of the whole log.
pub proof fn lemma_end_term(log: LogModel, full: Seq<EntryModel>)
    requires
        log.wf(),
        crate::cluster::mirrors(log, full),
    ensures
        crate::cluster::end_term(full) == log.last_term(),
{
    if log.entries.len() > 0 {
        assert(log.holds(log.last_index()));
        assert(log.at(log.last_index()) == full[log.last_index() - 1]);
    }
}

/// The term at an index is that in the whole log.
pub proof fn lemma_term_at(log: LogModel, full: Seq<EntryModel>, index: int)
    requires
        log.wf(),
        crate::cluster::mirrors(log, full),
        log.base_index() <= index <= log.last_index(),
        index >= 1,
    ensures
        log.term_at(index) == Some(full[index - 1].term),
{
    if index > log.base_index() {
        assert(log.holds(index));
        assert(log.at(index) == full[index - 1]);
    }
}

/// A node that is a founder, or whose log names the voters, goes by the voters of
/// its whole log.
pub proof fn lemma_goes_by_conf(
    founders: Seq<NodeId>,
    n: NodeId,
    s: NodeModel,
    full: Seq<EntryModel>,
    index: int,
)
    requires
        s.log.wf(),
        crate::cluster::mirrors(s.log, full),
        crate::cluster::snapshot_names(founders, s.log, full),
        founders.contains(n) ==> NodeModel::bootstrap(s.cfg) == founders,
        founders.contains(n) || s.log.voters_at(index) is Some,
        s.log.base_index() <= index <= s.log.last_index(),
    ensures
        s.voters_at(index) == crate::cluster::conf(founders, full.take(index)),
{
    let base = s.log.base_index();
    let upto = s.log.between(base + 1, index);
    let whole = full.take(index);
    crate::upkeep::lemma_between(s.log, base + 1, index);
    crate::upkeep::lemma_config_end(upto);
    let end = crate::model::config_end(upto);
    assert forall|i: int| 0 <= i < upto.len() implies #[trigger] upto[i] == whole[base + i] by {
        let at = base + 1 + i;
        assert(s.log.holds(at));
        assert(s.log.at(at) == full[at - 1]);
    }
    assert forall|i: int| base + end <= i < whole.len() implies crate::model::voters_in(
        #[trigger] whole[i],
    ) is None by {
        assert(upto[i - base] == whole[i]);
    }
    if end > 0 {
        assert(upto[end - 1] == whole[base + end - 1]);
        crate::upkeep::lemma_config_end_is(whole, base + end);
    } else {
        crate::safety::lemma_config_end_prefix(full, index, index);
        let e = crate::model::config_end(whole);
        if e > base {
            assert(whole[e - 1] == full[e - 1]);
        }
        crate::safety::lemma_conf_prefix(founders, full, index, base);
        if s.log.snapshot is None {
            assert(full.take(0) =~= Seq::empty());
        }
    }
}

/// A prefix of a rooted log is rooted.
pub proof fn lemma_rooted_prefix(h: History, log: Seq<EntryModel>, k: int)
    requires
        h.rooted(log),
        0 <= k <= log.len(),
    ensures
        h.rooted(log.take(k)),
{
    let short = log.take(k);
    assert forall|i: int| 0 <= i < short.len() implies {
        let u = (#[trigger] short[i]).term;
        h.leaders.contains_key(u) && crate::cluster::agree(short, h.leaders[u].log, i + 1)
    } by {
        assert(short[i] == log[i]);
        assert(short.take(i + 1) =~= log.take(i + 1));
    }
}

// ---- terms and votes -----------------------------------------------------

/// A node enters a later term as a follower.
#[verifier::rlimit(40)]
pub proof fn lemma_enters_term(c: Cluster, h: History, n: NodeId, term: Term)
    requires
        c.sound(h),
        c.nodes.contains_key(n),
    ensures
        c.moved(n, c.nodes[n].seen(term), Seq::empty()).sound(h),
        h.continues(h),
{
    let s = c.nodes[n];
    let next = s.seen(term);
    let log = h.full[n];
    assert(h.describes(c.founders, n, s));
    crate::upkeep::lemma_seen(s, term);
    if term > s.term {
        assert(crate::cluster::mirrors(next.log, log)) by {
            assert forall|i: int| next.log.holds(i) implies #[trigger] next.log.at(i) == log[i
                - 1] by {
                assert(s.log.holds(i));
                assert(s.log.at(i) == log[i - 1]);
            }
        }
        assert(h.continues(h));
        crate::safety::lemma_settled_lasts(h, h, c.founders, log, s.commit as int, s.term, term);
        assert forall|t: Term, k: int|
            #![trigger h.retains(log, t, k, term + 1)]
            1 <= k <= h.acked(t, n) implies h.retains(log, t, k, term + 1) by {
            assert(h.retains(log, t, k, s.term + 1));
            assert(h.leaders.contains_key(t));
            assert(h.leads_well(c.founders, t));
            crate::safety::lemma_retains_lasts(h, h, log, t, k, s.term + 1, term + 1);
        }
    }
    lemma_unrecorded(c, h, n, next, Seq::empty());
}

/// A node stands for election in its next term.
#[verifier::rlimit(40)]
pub proof fn lemma_stands(c: Cluster, h: History, n: NodeId) -> (g: History)
    requires
        c.sound(h),
        c.nodes.contains_key(n),
        c.nodes[n].term < u64::MAX,
        c.nodes[n].is_voter(),
        c.informed(n, c.nodes[n].log.last_index()),
    ensures
        g.continues(h),
        c.moved(n, c.nodes[n].campaigning(), Seq::empty()).sound(g),
        g.full == h.full,
{
    let s = c.nodes[n];
    let next = s.campaigning();
    let log = h.full[n];
    assert(h.describes(c.founders, n, s));
    crate::upkeep::lemma_campaigning(s);
    lemma_goes_by_conf(c.founders, n, s, log, s.log.last_index());
    assert(log.take(s.log.last_index()) =~= log);
    let term = next.term;
    let g = History {
        camps: h.camps.insert((term, n), log),
        votes: h.votes.insert((term, n), Ballot { candidate: n, log }),
        ..h
    };
    assert forall|t: Term, m: NodeId| #[trigger] g.acked(t, m) == h.acked(t, m) by {}
    assert(!h.camps.contains_key((term, n)));
    assert(!h.votes.contains_key((term, n)));
    assert(crate::safety::adds_only(g, h, n, term));
    crate::safety::lemma_rooted_lasts(h, g, log);
    crate::safety::lemma_settled_lasts(h, g, c.founders, log, s.commit as int, s.term, term);
    assert forall|t: Term, k: int|
        #![trigger g.retains(log, t, k, term as int)]
        1 <= k <= g.acked(t, n) implies g.retains(log, t, k, term as int) by {
        assert(g.acked(t, n) == h.acked(t, n));
        assert(h.retains(log, t, k, s.term + 1));
        assert(h.leaders.contains_key(t));
        assert(h.leads_well(c.founders, t));
        crate::safety::lemma_retains_lasts(h, g, log, t, k, s.term + 1, term as int);
    }
    assert(g.remembers(term, n, term as int));
    assert forall|t: Term, k: int|
        #![trigger g.retains(log, t, k, term + 1)]
        1 <= k <= g.acked(t, n) implies g.retains(log, t, k, term + 1) by {
        assert(g.retains(log, t, k, term as int));
        assert(g.leaders.contains_key(t));
        assert(h.leads_well(c.founders, t));
        assert(g.acked(t, n) == h.acked(t, n));
        assert(h.acked(t, n) <= h.leaders[t].log.len());
        assert(g.continues(g));
        crate::safety::lemma_retains_lasts(g, g, log, t, k, term as int, term + 1);
    }
    assert(g.remembers(term, n, term + 1));
    crate::safety::lemma_coverage_lasts(h, g, log);
    assert(g.describes(c.founders, n, next)) by {
        assert(crate::cluster::mirrors(next.log, log)) by {
            assert forall|i: int| next.log.holds(i) implies #[trigger] next.log.at(i) == log[i
                - 1] by {
                assert(s.log.holds(i));
                assert(s.log.at(i) == log[i - 1]);
            }
        }
        assert(g.votes_match(n, next)) by {
            assert forall|t: Term| #[trigger] g.votes.contains_key((t, n)) implies t <= term && (t
                == term ==> next.voted_for == Some(g.votes[(t, n)].candidate)) by {
                if t != term {
                    assert(h.votes.contains_key((t, n)));
                }
            }
            assert forall|t: Term| #[trigger] g.camps.contains_key((t, n)) implies t <= term by {
                if t != term {
                    assert(h.camps.contains_key((t, n)));
                }
            }
        }
        assert(g.stands(n, next)) by {
            if g.leaders.contains_key(term) {
                assert(h.leaders.contains_key(term));
            }
        }
    }
    if g.leaders.contains_key(term) {
        assert(h.leaders.contains_key(term));
        assert(h.leads_well(c.founders, term));
    }
    crate::safety::lemma_old_records(c, h, g, n, term);
    crate::safety::lemma_move(c, h, g, n, next, Seq::empty());
    g
}

/// A node casts its vote in its present term.
#[verifier::rlimit(40)]
pub proof fn lemma_votes(
    c: Cluster,
    h: History,
    n: NodeId,
    candidate: NodeId,
    next: NodeModel,
) -> (g: History)
    requires
        c.sound(h),
        c.nodes.contains_key(n),
        c.nodes[n].voted_for is None || c.nodes[n].voted_for == Some(candidate),
        h.camps.contains_key((c.nodes[n].term, candidate)),
        crate::cluster::as_good(h.camps[(c.nodes[n].term, candidate)], h.full[n]),
        next.wf(),
        next.cfg == c.nodes[n].cfg,
        next.term == c.nodes[n].term,
        next.log.snapshot == c.nodes[n].log.snapshot,
        next.log.entries == c.nodes[n].log.entries,
        next.members == c.nodes[n].members,
        next.commit == c.nodes[n].commit,
        next.role == c.nodes[n].role,
        next.votes == c.nodes[n].votes,
        next.progress == c.nodes[n].progress,
        next.voted_for == Some(candidate),
    ensures
        g.continues(h),
        c.moved(n, next, Seq::empty()).sound(g),
        g.votes.contains_key((next.term, n)),
        g.votes[(next.term, n)].candidate == candidate,
{
    let s = c.nodes[n];
    let log = h.full[n];
    let term = s.term;
    assert(h.describes(c.founders, n, s));
    assert(crate::cluster::mirrors(next.log, log)) by {
        assert forall|i: int| next.log.holds(i) implies #[trigger] next.log.at(i) == log[i - 1] by {
            assert(s.log.holds(i));
            assert(s.log.at(i) == log[i - 1]);
        }
    }
    if s.voted_for == Some(candidate) {
        lemma_unrecorded(c, h, n, next, Seq::empty());
        h
    } else {
        let g = History {
            votes: h.votes.insert((term, n), Ballot { candidate, log }),
            ..h
        };
        assert(!h.votes.contains_key((term, n)));
        assert forall|t: Term, m: NodeId| #[trigger] g.acked(t, m) == h.acked(t, m) by {}
        assert(crate::safety::adds_only(g, h, n, term));
        crate::safety::lemma_rooted_lasts(h, g, log);
        crate::safety::lemma_settled_lasts(h, g, c.founders, log, s.commit as int, term, term);
        assert forall|t: Term, k: int|
            #![trigger g.retains(log, t, k, term + 1)]
            1 <= k <= g.acked(t, n) implies g.retains(log, t, k, term + 1) by {
            assert(g.acked(t, n) == h.acked(t, n));
            assert(h.retains(log, t, k, term + 1));
            assert(h.leaders.contains_key(t));
            assert(h.leads_well(c.founders, t));
            crate::safety::lemma_retains_lasts(h, g, log, t, k, term + 1, term + 1);
        }
        assert(g.remembers(term, n, term + 1));
        if !g.leaders.contains_key(term) {
            assert forall|t: Term, k: int|
                #![trigger g.retains(log, t, k, term as int)]
                1 <= k <= g.acked(t, n) implies g.retains(log, t, k, term as int) by {
                assert(g.retains(log, t, k, term + 1));
                if g.dropped(t, k, term + 1) {
                    let u = choose|u: Term|
                        t < u < term + 1 && #[trigger] g.leaders.contains_key(u) && !g.carries(
                            u,
                            t,
                            k,
                        );
                    assert(u < term);
                    assert(g.dropped(t, k, term as int));
                }
            }
            assert(g.remembers(term, n, term as int));
        }
        crate::safety::lemma_coverage_lasts(h, g, log);
        assert(g.describes(c.founders, n, next)) by {
            assert(g.votes_match(n, next)) by {
                assert forall|t: Term| #[trigger] g.votes.contains_key((t, n)) implies t <= term
                    && (t == term ==> next.voted_for == Some(g.votes[(t, n)].candidate)) by {
                    if t != term {
                        assert(h.votes.contains_key((t, n)));
                    }
                }
                assert forall|t: Term| #[trigger] g.camps.contains_key((t, n)) implies t <= term by {
                    assert(h.camps.contains_key((t, n)));
                }
                assert forall|t: Term| #[trigger]
                    g.leaders.contains_key(t) && g.leaders[t].node == n implies t <= term by {
                    assert(h.leaders.contains_key(t));
                }
            }
        }
        if g.leaders.contains_key(term) {
            assert(h.leaders.contains_key(term));
            assert(h.leads_well(c.founders, term));
        }
        crate::safety::lemma_old_records(c, h, g, n, term);
        crate::safety::lemma_move(c, h, g, n, next, Seq::empty());
        g
    }
}

/// A candidate with the votes of a majority takes the lead: its term has no other
/// leader.
#[verifier::rlimit(40)]
pub proof fn lemma_takes_lead(c: Cluster, h: History, n: NodeId) -> (g: History)
    requires
        c.sound(h),
        c.nodes.contains_key(n),
        c.nodes[n].role == Role::Candidate,
        c.nodes[n].votes.len() >= c.nodes[n].quorum(),
    ensures
        g.continues(h),
        c.moved(n, c.nodes[n].leading(), Seq::empty()).sound(g),
{
    let s = c.nodes[n];
    let next = s.leading();
    let log = h.full[n];
    let term = s.term;
    let votes = s.votes;
    assert(h.describes(c.founders, n, s));
    assert(h.stands(n, s));
    crate::upkeep::lemma_leading(s);
    let electors = votes.to_set();
    let picks = |v: NodeId| electors.contains(v);
    crate::safety::lemma_distinct_voters_count(s.members, votes);
    assert(crate::cluster::majority(s.members, picks)) by {
        crate::safety::lemma_majority_widens(
            s.members,
            |v: NodeId| votes.to_set().contains(v),
            picks,
        );
    }
    assert forall|v: NodeId| #[trigger] electors.contains(v) implies h.votes.contains_key((term, v))
        && h.votes[(term, v)].candidate == n by {
        assert(votes.contains(v));
        let i = choose|i: int| 0 <= i < votes.len() && votes[i] == v;
        assert(votes[i] == v);
    }
    assert(h.stood_well(c.founders, term, n));
    if h.leaders.contains_key(term) {
        assert(crate::safety::wins(h, c.founders, term, log, electors, term + 1)) by {
            reveal(crate::safety::wins);
            assert forall|v: NodeId| #[trigger] electors.contains(v) implies {
                &&& h.votes.contains_key((term, v))
                &&& crate::cluster::as_good(log, h.votes[(term, v)].log)
                &&& h.rooted(h.votes[(term, v)].log)
                &&& h.remembers(term, v, term + 1)
            } by {
                assert(h.votes.contains_key((term, v)));
                assert(h.voted_well(c.founders, term, v));
            }
        }
        crate::safety::lemma_one_winner(h, c.founders, term, log, electors, n);
        assert(false);
    }
    let g = History {
        leaders: h.leaders.insert(term, Leadership { node: n, electors, start: log, log, early: false }),
        acks: h.acks.insert((term, n), log.len()),
        ..h
    };
    assert forall|t: Term, m: NodeId| t != term || m != n implies #[trigger] g.acked(t, m)
        == h.acked(t, m) by {}
    assert forall|m: NodeId| #[trigger] h.acked(term, m) == 0 by {}
    assert forall|t: Term, m: NodeId| g.acked(t, m) >= #[trigger] h.acked(t, m) by {
        assert(g.acked(t, m) >= 0);
        if t == term {
            assert(h.acked(term, m) == 0);
        } else {
            assert(g.acked(t, m) == h.acked(t, m));
        }
    }
    assert(g.continues(h));
    assert(crate::safety::adds_only(g, h, n, term));
    crate::safety::lemma_rooted_lasts(h, g, log);
    crate::safety::lemma_settled_lasts(h, g, c.founders, log, s.commit as int, term, term);
    assert(g.acked(term, n) == log.len());
    crate::safety::lemma_coverage_lasts(h, g, log);
    assert forall|u: Term| #[trigger] g.early(u) implies g.unseen(u, term) by {
        assert(h.early(u));
        assert(h.leads_well(c.founders, u));
        let l = h.leaders[u];
        assert forall|i: int| 0 <= i < l.start.len() implies (#[trigger] l.start[i]).term
            != term by {
            assert(l.log.take(l.start.len() as int)[i] == l.log[i]);
            assert(h.leaders.contains_key(l.log[i].term));
        }
    }
    crate::safety::lemma_old_records(c, h, g, n, term);
    assert(g.leads_well(c.founders, term)) by {
        assert(log.take(log.len() as int) =~= log);
        assert forall|v: NodeId| #[trigger] electors.contains(v) implies {
            &&& g.votes.contains_key((term, v))
            &&& g.votes[(term, v)].candidate == n
            &&& g.remembers(term, v, term as int)
        } by {
            assert(h.votes.contains_key((term, v)));
            assert(h.voted_well(c.founders, term, v));
            crate::safety::lemma_remembers_lasts(h, g, c.founders, term, v, term as int);
        }
        assert forall|m: NodeId| #[trigger] g.acked(term, m) <= log.len() by {
            if m != n {
                assert(g.acked(term, m) == h.acked(term, m));
                assert(h.acked(term, m) == 0);
            }
        }
    }
    assert(g.describes(c.founders, n, next)) by {
        assert forall|t: Term| #[trigger] g.acked(t, n) > 0 implies t <= term
            && g.leaders.contains_key(t) by {
            if t != term {
                assert(h.acked(t, n) > 0);
            }
        }
        assert forall|t: Term, k: int|
            #![trigger g.retains(log, t, k, term + 1)]
            1 <= k <= g.acked(t, n) implies g.retains(log, t, k, term + 1) by {
            if t != term {
                assert(g.acked(t, n) == h.acked(t, n));
                assert(h.retains(log, t, k, term + 1));
                assert(h.leaders.contains_key(t));
                assert(h.leads_well(c.founders, t));
                crate::safety::lemma_retains_lasts(h, g, log, t, k, term + 1, term + 1);
            }
        }
        assert(g.votes_match(n, next)) by {
            assert forall|t: Term| #[trigger] g.votes.contains_key((t, n)) implies t <= term && (t
                == term ==> next.voted_for == Some(g.votes[(t, n)].candidate)) by {
                assert(h.votes.contains_key((t, n)));
            }
            assert forall|t: Term| #[trigger]
                g.leaders.contains_key(t) && g.leaders[t].node == n implies t <= term by {
                if t != term {
                    assert(h.leaders.contains_key(t));
                }
            }
        }
    }
    crate::safety::lemma_move(c, h, g, n, next, Seq::empty());
    g
}

// ---- what a leader sends and commits -------------------------------------

/// What a leader sends is true.
#[verifier::rlimit(40)]
pub proof fn lemma_outgoing(
    h: History,
    founders: Seq<NodeId>,
    n: NodeId,
    s: NodeModel,
    p: Progress,
    to: NodeId,
)
    requires
        h.coherent(founders),
        h.describes(founders, n, s),
        s.role == Role::Leader,
        1 <= p.next <= s.log.last_index() + 1,
    ensures
        h.vouches(founders, to, s.outgoing(p)),
{
    let log = h.full[n];
    let base = s.log.base_index();
    assert(h.rules(n, s));
    if p.next <= base {
        crate::safety::lemma_settled_moves(
            h,
            founders,
            log,
            log,
            s.commit as int,
            base,
            s.term,
            s.term,
        );
    } else {
        let prev = p.next - 1;
        let batch = s.batch(p);
        if prev >= 1 {
            lemma_term_at(s.log, log, prev);
        }
        let from = p.next as int;
        assert(batch.len() <= s.log.last_index() - prev);
        assert(batch =~= log.subrange(prev, prev + batch.len())) by {
            assert forall|i: int| 0 <= i < batch.len() implies #[trigger] batch[i] == log[prev
                + i] by {
                let at = from + i;
                assert(s.log.holds(at));
                assert(s.log.at(at) == log[at - 1]);
            }
        }
    }
}

/// What is handed out once entries are committed is justified.
pub proof fn lemma_applies_justified(
    h: History,
    founders: Seq<NodeId>,
    n: NodeId,
    log: Seq<EntryModel>,
    count: int,
    bound: Term,
    from: int,
    run: Seq<EntryModel>,
)
    requires
        h.settled(founders, log, count, bound),
        crate::cluster::tidy(founders, log),
        count <= log.len(),
        1 <= from,
        from + run.len() - 1 <= count,
        forall|i: int| 0 <= i < run.len() ==> #[trigger] run[i] == log[from + i - 1],
    ensures
        honest(h, founders, n, crate::model::applies(run)),
    decreases run.len(),
{
    if run.len() > 0 {
        let short = run.drop_last();
        let e = run.last();
        lemma_applies_justified(h, founders, n, log, count, bound, from, short);
        let (t, k) = choose|t: Term, k: int|
            #![trigger h.chosen(founders, t, k)]
            h.chosen(founders, t, k) && t <= bound && count <= k && crate::cluster::agree(
                log,
                h.leaders[t].log,
                count,
            );
        let at = from + run.len() - 2;
        assert(e == log[at]);
        crate::safety::lemma_agree_at(log, h.leaders[t].log, count, at);
        let a = Applied { node: n, index: e.index, term: e.term, command: e.command };
        assert(e.index == at + 1);
        assert(h.justifies(founders, a)) by {
            assert(h.chosen(founders, t, k));
        }
        let before = crate::model::applies(short);
        let x = ActionModel::Apply { index: e.index, term: e.term, command: e.command };
        let one = seq![x];
        assert(honest(h, founders, n, one));
        lemma_honest_both(h, founders, n, before, one);
        assert(before + one =~= before.push(x));
    }
}

/// A node hands out what it has committed.
pub proof fn lemma_drains(h: History, founders: Seq<NodeId>, n: NodeId, s: NodeModel)
    requires
        h.describes(founders, n, s),
    ensures
        h.describes(founders, n, s.drained().0),
        honest(h, founders, n, s.drained().1),
{
    let log = h.full[n];
    let run = s.log.between(s.applied + 1, s.commit as int);
    crate::upkeep::lemma_drained(s);
    crate::upkeep::lemma_between(s.log, s.applied + 1, s.commit as int);
    assert forall|i: int| 0 <= i < run.len() implies #[trigger] run[i] == log[(s.applied + 1) + i
        - 1] by {
        let at = s.applied + 1 + i;
        assert(s.log.holds(at));
        assert(s.log.at(at) == log[at - 1]);
    }
    lemma_applies_justified(
        h,
        founders,
        n,
        log,
        s.commit as int,
        s.term,
        s.applied + 1,
        run,
    );
    let done = crate::model::applies(run);
    let hint = ActionModel::Snapshot {
        index: s.commit,
        term: s.log.term_at(s.commit as int)->0,
    };
    assert(honest(h, founders, n, seq![hint]));
    lemma_honest_both(h, founders, n, done, seq![hint]);
    assert(done + seq![hint] =~= done.push(hint));
}

/// What a leader may commit was chosen.
pub proof fn lemma_may_commit(h: History, founders: Seq<NodeId>, n: NodeId, s: NodeModel, index: int)
    requires
        h.coherent(founders),
        h.describes(founders, n, s),
        s.role == Role::Leader,
        s.commit < index <= s.log.last_index(),
        s.may_commit(index),
    ensures
        h.chosen(founders, s.term, index),
        h.settled(founders, h.full[n], index, s.term),
{
    let log = h.full[n];
    assert(h.rules(n, s));
    assert(h.leads_well(founders, s.term));
    lemma_term_at(s.log, log, index);
    crate::upkeep::lemma_others(s);
    let voters = s.members;
    assert forall|i: int|
        0 <= i < voters.len() && s.holds_through(index)(#[trigger] voters[i]) implies h.backs(
        s.term,
        index,
    )(voters[i]) by {
        let m = voters[i];
        if m != n {
            assert(s.members.contains(m));
            assert(s.others().contains(m));
            let j = choose|j: int| 0 <= j < s.others().len() && s.others()[j] == m;
            assert(s.progress[j].peer == m);
            crate::upkeep::lemma_slot_of(s.progress, m);
            let slot = crate::model::slot_of(s.progress, m);
            assert(s.progress[slot].peer == m);
        }
    }
    assert(crate::cluster::majority(voters, s.holds_through(index)));
    crate::safety::lemma_majority_widens(voters, s.holds_through(index), h.backs(s.term, index));
    assert(log.take(log.len() as int) =~= log);
    assert(h.held(founders, s.term, index, log.len() as int));
    assert(h.chosen(founders, s.term, index));
    assert(crate::cluster::agree(log, h.leaders[s.term].log, index));
}

/// A leader commits what it may.
#[verifier::rlimit(40)]
pub proof fn lemma_commits(c: Cluster, h: History, n: NodeId)
    requires
        c.sound(h),
        c.nodes.contains_key(n),
        c.nodes[n].role == Role::Leader,
    ensures
        c.moved(n, c.nodes[n].committed().0, c.nodes[n].committed().1).sound(h),
        h.continues(h),
{
    let s = c.nodes[n];
    assert(h.describes(c.founders, n, s));
    let target = s.commit_target(s.log.last_index());
    crate::upkeep::lemma_commit_target(s, s.log.last_index());
    if target > s.commit {
        lemma_may_commit(h, c.founders, n, s, target);
        let mid = NodeModel { commit: target as Index, ..s };
        assert(mid.wf());
        assert(h.describes(c.founders, n, mid));
        lemma_drains(h, c.founders, n, mid);
        let (next, out) = mid.drained();
        if !next.is_voter() && next.log.config_index() <= next.commit {
            let last = next.following(None);
            crate::upkeep::lemma_following(next, None);
            assert(h.describes(c.founders, n, last));
            lemma_unrecorded(c, h, n, last, out);
        } else {
            lemma_unrecorded(c, h, n, next, out);
        }
    } else {
        lemma_unrecorded(c, h, n, s, Seq::empty());
    }
}

/// A leader sends every other voter its next message.
pub proof fn lemma_broadcasts(c: Cluster, h: History, n: NodeId)
    requires
        c.sound(h),
        c.nodes.contains_key(n),
        c.nodes[n].role == Role::Leader,
    ensures
        c.moved(n, c.nodes[n].broadcast().0, c.nodes[n].broadcast().1).sound(h),
        h.continues(h),
{
    let s = c.nodes[n];
    let (next, out) = s.broadcast();
    assert(h.describes(c.founders, n, s));
    crate::upkeep::lemma_broadcast(s);
    assert forall|i: int| 0 <= i < next.progress.len() implies (
    #[trigger] next.progress[i]).matched <= h.acked(next.term, next.progress[i].peer) by {
        let p = s.progress[i];
        crate::upkeep::lemma_after_sending(s, p);
    }
    assert forall|i: int| 0 <= i < out.len() implies (#[trigger] out[i] matches ActionModel::Send {
        to,
        message,
    } ==> h.vouches(c.founders, to, message)) by {
        let p = s.progress[i];
        lemma_outgoing(h, c.founders, n, s, p, p.peer);
    }
    assert(h.describes(c.founders, n, next));
    lemma_unrecorded(c, h, n, next, out);
}

/// A leader sends one other voter its next message.
pub proof fn lemma_sends_to(c: Cluster, h: History, n: NodeId, slot: int)
    requires
        c.sound(h),
        c.nodes.contains_key(n),
        c.nodes[n].role == Role::Leader,
        0 <= slot < c.nodes[n].progress.len(),
    ensures
        c.moved(n, c.nodes[n].sent_to(slot).0, c.nodes[n].sent_to(slot).1).sound(h),
        h.continues(h),
{
    let s = c.nodes[n];
    let (next, out) = s.sent_to(slot);
    assert(h.describes(c.founders, n, s));
    crate::upkeep::lemma_sent_to(s, slot);
    let p = s.progress[slot];
    crate::upkeep::lemma_after_sending(s, p);
    assert forall|i: int| 0 <= i < next.progress.len() implies (
    #[trigger] next.progress[i]).matched <= h.acked(next.term, next.progress[i].peer) by {
        let q = s.progress[i];
        assert(q.matched <= h.acked(s.term, q.peer));
    }
    lemma_outgoing(h, c.founders, n, s, p, p.peer);
    assert(h.describes(c.founders, n, next));
    lemma_unrecorded(c, h, n, next, out);
}

/// A leader broadcasts, then commits what it may.
pub proof fn lemma_broadcasts_and_commits(c: Cluster, h: History, n: NodeId)
    requires
        c.sound(h),
        c.nodes.contains_key(n),
        c.nodes[n].role == Role::Leader,
    ensures
        c.moved(
            n,
            c.nodes[n].broadcast_and_committed().0,
            c.nodes[n].broadcast_and_committed().1,
        ).sound(h),
        h.continues(h),
{
    let s = c.nodes[n];
    let (sent, out) = s.broadcast();
    let (next, more) = sent.committed();
    lemma_broadcasts(c, h, n);
    lemma_moved_twice(c, n, sent, out, next, more);
    lemma_commits(c.moved(n, sent, out), h, n);
}

// ---- growing and replacing logs ------------------------------------------

/// A log that an uncontested leader covers, with one more entry.
proof fn lemma_grown_is_covered(
    h: History,
    g: History,
    u: Term,
    log: Seq<EntryModel>,
    e: EntryModel,
)
    requires
        g.continues(h),
        h.early(u),
        h.covered(u, log),
        crate::model::voters_in(e) is Some ==> u <= e.term,
    ensures
        g.covered(u, log.push(e)),
{
    let grown = log.push(e);
    assert forall|i: int| 0 <= i < grown.len() implies g.covers(u, #[trigger] grown[i]) by {
        if i < log.len() {
            assert(h.covers(u, log[i]));
        }
    }
}

/// A leader appends an entry. One that names voters changes them by one at most,
/// and builds on what was chosen.
#[verifier::rlimit(40)]
pub proof fn lemma_appends(
    c: Cluster,
    h: History,
    n: NodeId,
    next: NodeModel,
    e: EntryModel,
) -> (g: History)
    requires
        c.sound(h),
        c.nodes.contains_key(n),
        c.nodes[n].role == Role::Leader,
        e.term == c.nodes[n].term,
        e.index == c.nodes[n].log.last_index() + 1,
        crate::model::voters_in(e) matches Some(ids) ==> crate::cluster::close(
            crate::cluster::conf(c.founders, h.full[n]),
            ids,
        ) && h.founded(c.founders, e.term, h.full[n].len() as int) && (forall|u: Term| #[trigger]
            h.early(u) ==> u <= e.term),
        next.wf(),
        next.cfg == c.nodes[n].cfg,
        next.log == c.nodes[n].log.append(seq![e]),
        next.term == c.nodes[n].term,
        next.voted_for == c.nodes[n].voted_for,
        next.role == Role::Leader,
        next.commit == c.nodes[n].commit,
        next.members == crate::cluster::conf(c.founders, h.full[n].push(e)),
        forall|i: int|
            0 <= i < next.progress.len() ==> (#[trigger] next.progress[i]).matched <= h.acked(
                next.term,
                next.progress[i].peer,
            ),
    ensures
        g.continues(h),
        c.moved(n, next, Seq::empty()).sound(g),
{
    let s = c.nodes[n];
    let log = h.full[n];
    let grown = log.push(e);
    let term = s.term;
    assert(h.describes(c.founders, n, s));
    assert(h.rules(n, s));
    assert(h.leads_well(c.founders, term));
    let l = h.leaders[term];
    let g = History {
        full: h.full.insert(n, grown),
        leaders: h.leaders.insert(term, Leadership { log: grown, ..l }),
        acks: h.acks.insert((term, n), grown.len()),
        ..h
    };
    assert forall|t: Term, m: NodeId| t != term || m != n implies #[trigger] g.acked(t, m)
        == h.acked(t, m) by {}
    assert(g.acked(term, n) == grown.len());
    assert(h.acked(term, n) == log.len());
    assert forall|t: Term, m: NodeId| g.acked(t, m) >= #[trigger] h.acked(t, m) by {
        if t != term || m != n {
            assert(g.acked(t, m) == h.acked(t, m));
        }
    }
    assert(crate::cluster::agree(grown, log, log.len() as int)) by {
        assert(grown.take(log.len() as int) =~= log.take(log.len() as int));
    }
    assert(g.continues(h));
    assert(crate::safety::adds_only(g, h, n, term));
    crate::safety::lemma_rooted_lasts(h, g, log);
    crate::safety::lemma_settled_lasts(h, g, c.founders, log, s.commit as int, term, term);
    crate::safety::lemma_agree_less(grown, log, log.len() as int, s.commit as int);
    crate::safety::lemma_settled_moves(
        g,
        c.founders,
        log,
        grown,
        s.commit as int,
        s.commit as int,
        term,
        term,
    );
    assert(g.rooted(grown)) by {
        assert forall|k: int| 0 <= k < grown.len() implies {
            let u = (#[trigger] grown[k]).term;
            g.leaders.contains_key(u) && crate::cluster::agree(grown, g.leaders[u].log, k + 1)
        } by {
            if k < log.len() {
                assert(grown[k] == log[k]);
                let u = log[k].term;
                assert(g.leaders.contains_key(u));
                assert(crate::cluster::agree(log, g.leaders[u].log, k + 1));
                assert(grown.take(k + 1) =~= log.take(k + 1));
            }
        }
    }
    assert(crate::cluster::tidy(c.founders, grown)) by {
        assert forall|i: int| 0 <= i < grown.len() implies {
            let x = #[trigger] grown[i];
            x.index == i + 1 && x.term >= 1 && (crate::model::voters_in(x) matches Some(ids)
                ==> crate::cluster::close(crate::cluster::conf(c.founders, grown.take(i)), ids))
        } by {
            if i < log.len() {
                assert(grown[i] == log[i]);
                assert(grown.take(i) =~= log.take(i));
            } else {
                assert(grown.take(i) =~= log);
            }
        }
    }
    assert(crate::cluster::below(grown, term + 1)) by {
        assert forall|i: int| 0 <= i < grown.len() implies (#[trigger] grown[i]).term < term + 1 by {
            if i < log.len() {
                assert(grown[i] == log[i]);
            }
        }
    }
    assert forall|u: Term| #[trigger] g.early(u) implies g.covered(u, grown) && (term < u
        ==> g.unseen(u, term)) by {
        assert(h.early(u));
        lemma_grown_is_covered(h, g, u, log, e);
        if term < u {
            assert(h.unseen(u, term));
            assert(g.leaders[u].start == h.leaders[u].start);
        }
    }
    crate::safety::lemma_old_records(c, h, g, n, term);
    assert(g.leads_well(c.founders, term)) by {
        assert(l.log.take(l.start.len() as int) == l.start);
        assert(grown.take(l.start.len() as int) =~= l.log.take(l.start.len() as int));
        assert forall|i: int| l.start.len() <= i < grown.len() implies (
        #[trigger] grown[i]).term == term by {
            if i < log.len() {
                assert(grown[i] == l.log[i]);
            }
        }
        assert forall|v: NodeId| #[trigger] l.electors.contains(v) implies {
            &&& g.votes.contains_key((term, v))
            &&& g.votes[(term, v)].candidate == n
            &&& g.remembers(term, v, term as int)
        } by {
            assert(h.votes.contains_key((term, v)));
            crate::safety::lemma_remembers_lasts(h, g, c.founders, term, v, term as int);
        }
        assert forall|p: int|
            l.start.len() <= p < grown.len() && crate::model::voters_in(
                #[trigger] grown[p],
            ) is Some implies g.founded(c.founders, term, p) by {
            if p < log.len() {
                assert(grown[p] == l.log[p]);
            }
            assert(h.founded(c.founders, term, p));
            assert(grown.take(p) =~= log.take(p));
            if h.grounded(c.founders, term, p) {
                crate::safety::lemma_grounded_lasts(h, g, c.founders, term, p);
            }
        }
        if l.early {
            crate::upkeep::lemma_config_end(l.start);
            crate::safety::lemma_settled_lasts(
                h,
                g,
                c.founders,
                l.start,
                crate::model::config_end(l.start),
                (term - 1) as Term,
                (term - 1) as Term,
            );
        }
        assert forall|m: NodeId| #[trigger] g.acked(term, m) <= grown.len() by {
            if m != n {
                assert(g.acked(term, m) == h.acked(term, m));
                assert(h.acked(term, m) <= l.log.len());
            }
        }
    }
    assert(g.describes(c.founders, n, next)) by {
        assert(crate::cluster::mirrors(next.log, grown)) by {
            assert forall|i: int| next.log.holds(i) implies #[trigger] next.log.at(i) == grown[i
                - 1] by {
                if i <= s.log.last_index() {
                    assert(s.log.holds(i));
                    assert(s.log.at(i) == log[i - 1]);
                }
            }
        }
        assert forall|t: Term, k: int|
            #![trigger g.retains(grown, t, k, term + 1)]
            1 <= k <= g.acked(t, n) implies g.retains(grown, t, k, term + 1) by {
            if t != term {
                assert(g.acked(t, n) == h.acked(t, n));
                assert(h.retains(log, t, k, term + 1));
                assert(h.leaders.contains_key(t));
                assert(h.leads_well(c.founders, t));
                crate::safety::lemma_retains_lasts(h, g, log, t, k, term + 1, term + 1);
                if crate::cluster::agree(log, g.leaders[t].log, k) {
                    assert(grown.take(k) =~= log.take(k));
                }
            }
        }
        assert forall|t: Term| #[trigger] g.acked(t, n) > 0 implies t <= term
            && g.leaders.contains_key(t) by {
            if t != term {
                assert(h.acked(t, n) > 0);
            }
        }
        assert(g.votes_match(n, next)) by {
            assert forall|t: Term| #[trigger]
                g.leaders.contains_key(t) && g.leaders[t].node == n implies t <= term by {
                if t != term {
                    assert(h.leaders.contains_key(t));
                }
            }
        }
        assert(g.rules(n, next)) by {
            assert forall|i: int| 0 <= i < next.progress.len() implies (
            #[trigger] next.progress[i]).matched <= g.acked(term, next.progress[i].peer) by {
                assert(g.acked(term, next.progress[i].peer) >= h.acked(
                    term,
                    next.progress[i].peer,
                ));
            }
        }
        assert(crate::cluster::snapshot_names(c.founders, next.log, grown)) by {
            if s.log.snapshot is Some {
                assert(grown.take(s.log.base_index()) =~= log.take(s.log.base_index()));
            }
        }
    }
    crate::safety::lemma_move(c, h, g, n, next, Seq::empty());
    g
}

/// What a node has committed, the leader of its term holds too.
pub proof fn lemma_leader_holds_commit(c: Cluster, h: History, n: NodeId)
    requires
        c.sound(h),
        c.nodes.contains_key(n),
        h.leaders.contains_key(c.nodes[n].term),
    ensures
        crate::cluster::agree(
            h.full[n],
            h.leaders[c.nodes[n].term].log,
            c.nodes[n].commit as int,
        ),
{
    let s = c.nodes[n];
    let log = h.full[n];
    let lead = h.leaders[s.term].log;
    assert(h.describes(c.founders, n, s));
    if s.commit > 0 {
        let (t, k) = choose|t: Term, k: int|
            #![trigger h.chosen(c.founders, t, k)]
            h.chosen(c.founders, t, k) && t <= s.term && s.commit <= k && crate::cluster::agree(
                log,
                h.leaders[t].log,
                s.commit as int,
            );
        crate::safety::lemma_chosen_is_held(h, c.founders, t, k, s.term);
        crate::safety::lemma_agree_less(lead, h.leaders[t].log, k, s.commit as int);
        crate::safety::lemma_agree_through(
            log,
            h.leaders[t].log,
            lead,
            s.commit as int,
            s.commit as int,
            s.commit as int,
        );
    } else {
        assert(log.take(0) =~= lead.take(0));
    }
}

/// A follower takes the first `count` entries of the log of its term's leader for
/// its own, unless it has them already.
#[verifier::rlimit(40)]
pub proof fn lemma_takes_over(
    c: Cluster,
    h: History,
    n: NodeId,
    next: NodeModel,
    log: Seq<EntryModel>,
    count: int,
) -> (g: History)
    requires
        c.sound(h),
        c.nodes.contains_key(n),
        h.leaders.contains_key(c.nodes[n].term),
        crate::cluster::agree(log, h.leaders[c.nodes[n].term].log, count),
        log == h.full[n] || (log == h.leaders[c.nodes[n].term].log.take(count)
            && !crate::cluster::agree(h.full[n], h.leaders[c.nodes[n].term].log, count)),
        next.wf(),
        next.cfg == c.nodes[n].cfg,
        next.term == c.nodes[n].term,
        next.voted_for == c.nodes[n].voted_for,
        next.role == Role::Follower,
        crate::cluster::snapshot_names(c.founders, next.log, log),
        crate::cluster::mirrors(next.log, log),
        h.settled(c.founders, log, next.commit as int, next.term),
        forall|u: Term| #[trigger] h.early(u) ==> h.covered(u, log),
    ensures
        g.continues(h),
        c.moved(n, next, Seq::empty()).sound(g),
        g.acked(next.term, n) >= count,
{
    let s = c.nodes[n];
    let term = s.term;
    let old = h.full[n];
    let lead = h.leaders[term].log;
    assert(h.describes(c.founders, n, s));
    assert(h.leads_well(c.founders, term));
    let before = h.acked(term, n);
    let acks: nat = if count > before {
        count as nat
    } else {
        before
    };
    let g = History {
        full: h.full.insert(n, log),
        acks: h.acks.insert((term, n), acks),
        ..h
    };
    assert forall|t: Term, m: NodeId| t != term || m != n implies #[trigger] g.acked(t, m)
        == h.acked(t, m) by {}
    assert(g.acked(term, n) == acks);
    assert forall|t: Term, m: NodeId| g.acked(t, m) >= #[trigger] h.acked(t, m) by {
        if t != term || m != n {
            assert(g.acked(t, m) == h.acked(t, m));
        }
    }
    assert(g.continues(h));
    assert(crate::safety::adds_only(g, h, n, term));
    assert(before <= lead.len());
    if log != old {
        lemma_rooted_prefix(h, lead, count);
        crate::safety::lemma_tidy_prefix(c.founders, lead, count);
        assert(crate::cluster::below(log, term + 1)) by {
            assert forall|i: int| 0 <= i < log.len() implies (#[trigger] log[i]).term < term
                + 1 by {
                assert(log[i] == lead[i]);
                crate::safety::lemma_leader_terms(h, c.founders, term, i);
            }
        }
    }
    crate::safety::lemma_rooted_lasts(h, g, log);
    crate::safety::lemma_settled_lasts(h, g, c.founders, log, next.commit as int, term, term);
    assert(before > 0 ==> crate::cluster::agree(old, lead, before as int)) by {
        if before > 0 {
            assert(h.retains(old, term, before as int, term + 1));
        }
    }
    assert(acks > 0 ==> crate::cluster::agree(log, lead, acks as int)) by {
        if log != old && before >= count && before > 0 {
            crate::safety::lemma_agree_less(old, lead, before as int, count);
        }
    }
    assert(h.acked(term, h.leaders[term].node) == lead.len());
    crate::safety::lemma_coverage_lasts(h, g, log);
    crate::safety::lemma_old_records(c, h, g, n, term);
    assert(g.leads_well(c.founders, term));
    assert(g.describes(c.founders, n, next)) by {
        assert forall|t: Term, k: int|
            #![trigger g.retains(log, t, k, term + 1)]
            1 <= k <= g.acked(t, n) implies g.retains(log, t, k, term + 1) by {
            if t == term {
                crate::safety::lemma_agree_less(log, lead, acks as int, k);
            } else {
                assert(g.acked(t, n) == h.acked(t, n));
                assert(h.retains(old, t, k, term + 1));
                assert(h.leaders.contains_key(t));
                assert(h.leads_well(c.founders, t));
                if log == old {
                    crate::safety::lemma_retains_lasts(h, g, log, t, k, term + 1, term + 1);
                } else {
                    lemma_kept_or_dropped(h, c.founders, term, old, count, t, k);
                    crate::safety::lemma_retains_lasts(h, g, log, t, k, term + 1, term + 1);
                }
            }
        }
        assert forall|t: Term| #[trigger] g.acked(t, n) > 0 implies t <= term
            && g.leaders.contains_key(t) by {
            if t != term {
                assert(h.acked(t, n) > 0);
            }
        }
    }
    crate::safety::lemma_move(c, h, g, n, next, Seq::empty());
    g
}

/// What is lost when a log gives way to the leader's, that leader lacked.
proof fn lemma_kept_or_dropped(
    h: History,
    founders: Seq<NodeId>,
    term: Term,
    old: Seq<EntryModel>,
    count: int,
    t: Term,
    k: int,
)
    requires
        h.leaders.contains_key(term),
        h.leads_well(founders, term),
        h.leaders.contains_key(t),
        t < term,
        0 <= count <= h.leaders[term].log.len(),
        !crate::cluster::agree(old, h.leaders[term].log, count),
        h.retains(old, t, k, term + 1),
    ensures
        h.retains(h.leaders[term].log.take(count), t, k, term + 1),
{
    let l = h.leaders[term];
    let log = l.log.take(count);
    let other = h.leaders[t].log;
    if !h.dropped(t, k, term + 1) {
        assert(h.carries(term, t, k));
        assert(crate::cluster::agree(l.log, l.start, l.start.len() as int)) by {
            assert(l.start.take(l.start.len() as int) =~= l.start);
        }
        crate::safety::lemma_agree_through(l.log, l.start, other, l.start.len() as int, k, k);
        if k > count {
            crate::safety::lemma_agree_less(l.log, other, k, k);
            crate::safety::lemma_agree_through(old, other, l.log, k, k, count);
        } else {
            assert(log.take(k) =~= l.log.take(k));
        }
    }
}

} // verus!
