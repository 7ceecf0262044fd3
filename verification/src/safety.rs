//! The safety of a cluster, whatever happens.
//!
//! The proof keeps, beside the cluster, a record of what has happened, and shows
//! that every step keeps the two in agreement. The heart of it is
//! [`lemma_winner_has_chosen`]: what a majority holds of a leader's log, up to an
//! entry of that leader's own term, whoever wins a later election has. Majorities
//! of different sets of voters have a voter in common because the sets differ in
//! one voter at most, and they do because every change of them builds on what was
//! chosen before.

use crate::cluster::{Applied, Cluster, History};
use crate::message::{AppendModel, MessageModel};
use crate::model::{ActionModel, NodeModel};
use crate::types::{EntryModel, NodeId, Role, Term};
use vstd::prelude::*;

verus! {

// ---- counting ------------------------------------------------------------

/// Two majorities have a voter in common.
pub proof fn lemma_majorities_meet(
    voters: Seq<NodeId>,
    p: spec_fn(NodeId) -> bool,
    q: spec_fn(NodeId) -> bool,
) -> (v: NodeId)
    requires
        crate::cluster::majority(voters, p),
        crate::cluster::majority(voters, q),
    ensures
        voters.contains(v),
        p(v),
        q(v),
{
    lemma_counts_overlap(voters, p, q);
    let both = |x: NodeId| p(x) && q(x);
    let kept = voters.filter(both);
    voters.lemma_filter_pred(both, 0);
    let v = kept[0];
    assert(kept.contains(v));
    voters.lemma_filter_contains_rev(both, v);
    v
}

/// Two counts that add up to more than there is overlap.
proof fn lemma_counts_overlap(
    ids: Seq<NodeId>,
    p: spec_fn(NodeId) -> bool,
    q: spec_fn(NodeId) -> bool,
)
    ensures
        ids.filter(p).len() + ids.filter(q).len() <= ids.len() + ids.filter(
            |x: NodeId| p(x) && q(x),
        ).len(),
    decreases ids.len(),
{
    reveal(Seq::filter);
    if ids.len() > 0 {
        lemma_counts_overlap(ids.drop_last(), p, q);
    }
}

/// A condition that more voters satisfy keeps a majority.
pub proof fn lemma_majority_widens(
    voters: Seq<NodeId>,
    p: spec_fn(NodeId) -> bool,
    q: spec_fn(NodeId) -> bool,
)
    requires
        crate::cluster::majority(voters, p),
        forall|i: int| 0 <= i < voters.len() && p(#[trigger] voters[i]) ==> q(voters[i]),
    ensures
        crate::cluster::majority(voters, q),
{
    lemma_count_widens(voters, p, q);
}

/// A wider condition counts no fewer.
proof fn lemma_count_widens(
    ids: Seq<NodeId>,
    p: spec_fn(NodeId) -> bool,
    q: spec_fn(NodeId) -> bool,
)
    requires
        forall|i: int| 0 <= i < ids.len() && p(#[trigger] ids[i]) ==> q(ids[i]),
    ensures
        ids.filter(p).len() <= ids.filter(q).len(),
    decreases ids.len(),
{
    reveal(Seq::filter);
    if ids.len() > 0 {
        let short = ids.drop_last();
        assert forall|i: int| 0 <= i < short.len() && p(#[trigger] short[i]) implies q(
            short[i],
        ) by {
            assert(short[i] == ids[i]);
        }
        lemma_count_widens(short, p, q);
    }
}

/// Leaving out one id takes away at most its own count.
proof fn lemma_count_without(ids: Seq<NodeId>, id: NodeId, p: spec_fn(NodeId) -> bool)
    ensures
        ids.filter(p).len() <= crate::members::without(ids, id).filter(p).len() + (ids.len()
            - crate::members::without(ids, id).len()),
        crate::members::without(ids, id).len() <= ids.len(),
    decreases ids.len(),
{
    reveal(Seq::filter);
    let keep = |x: NodeId| x != id;
    let rest = crate::members::without(ids, id);
    if ids.len() > 0 {
        let short = ids.drop_last();
        let inner = crate::members::without(short, id);
        lemma_count_without(short, id, p);
        if keep(ids.last()) {
            assert(rest == inner.push(ids.last()));
            assert(rest.drop_last() =~= inner);
        } else {
            assert(rest == inner);
        }
    }
}

/// Majorities of sets that differ in one voter at most have a voter in common.
pub proof fn lemma_close_majorities_meet(
    a: Seq<NodeId>,
    b: Seq<NodeId>,
    p: spec_fn(NodeId) -> bool,
    q: spec_fn(NodeId) -> bool,
) -> (v: NodeId)
    requires
        crate::cluster::close(a, b),
        crate::cluster::majority(a, p),
        crate::cluster::majority(b, q),
    ensures
        p(v),
        q(v),
{
    let id = choose|id: NodeId| crate::cluster::differ_in(a, b, id);
    if a.contains(id) == b.contains(id) {
        assert forall|x: NodeId| #[trigger] a.contains(x) <==> b.contains(x) by {}
        crate::members::lemma_ascending_unique(a, b);
        lemma_majorities_meet(a, p, q)
    } else {
        let x = crate::members::without(a, id);
        let y = crate::members::without(b, id);
        crate::members::lemma_without(a, id);
        crate::members::lemma_without(b, id);
        assert forall|z: NodeId| #[trigger] x.contains(z) <==> y.contains(z) by {
            assert(x.contains(z) <==> a.contains(z) && z != id);
        }
        crate::members::lemma_ascending_unique(x, y);
        lemma_count_without(a, id, p);
        lemma_count_without(b, id, q);
        lemma_counts_overlap(x, p, q);
        let both = |z: NodeId| p(z) && q(z);
        let kept = x.filter(both);
        x.lemma_filter_pred(both, 0);
        kept[0]
    }
}

/// Distinct voters among the voters are counted each.
pub proof fn lemma_distinct_voters_count(voters: Seq<NodeId>, some: Seq<NodeId>)
    requires
        some.no_duplicates(),
        forall|i: int| 0 <= i < some.len() ==> voters.contains(#[trigger] some[i]),
    ensures
        voters.filter(|v: NodeId| some.to_set().contains(v)).len() >= some.len(),
{
    let keep = |v: NodeId| some.to_set().contains(v);
    let kept = voters.filter(keep);
    some.unique_seq_to_set();
    vstd::seq_lib::seq_to_set_is_finite(kept);
    vstd::seq_lib::seq_to_set_is_finite(some);
    assert forall|v: NodeId| #[trigger] some.to_set().contains(v) implies kept.to_set().contains(
        v,
    ) by {
        assert(some.contains(v));
        let i = choose|i: int| 0 <= i < some.len() && some[i] == v;
        assert(voters.contains(some[i]));
        let j = choose|j: int| 0 <= j < voters.len() && voters[j] == v;
        voters.lemma_filter_contains(keep, j);
        assert(kept.contains(v));
    }
    assert(some.to_set().subset_of(kept.to_set()));
    vstd::set_lib::lemma_len_subset(some.to_set(), kept.to_set());
    kept.lemma_cardinality_of_set();
}

// ---- logs ----------------------------------------------------------------

/// Agreement on more entries is agreement on fewer.
pub proof fn lemma_agree_less(a: Seq<EntryModel>, b: Seq<EntryModel>, k: int, j: int)
    requires
        crate::cluster::agree(a, b, k),
        0 <= j <= k,
    ensures
        crate::cluster::agree(a, b, j),
        crate::cluster::agree(b, a, j),
{
    assert(a.take(j) =~= a.take(k).take(j));
    assert(b.take(j) =~= b.take(k).take(j));
}

/// Agreement is transitive.
pub proof fn lemma_agree_through(
    a: Seq<EntryModel>,
    b: Seq<EntryModel>,
    c: Seq<EntryModel>,
    j: int,
    k: int,
    i: int,
)
    requires
        crate::cluster::agree(a, b, j),
        crate::cluster::agree(b, c, k),
        0 <= i <= j,
        i <= k,
    ensures
        crate::cluster::agree(a, c, i),
{
    lemma_agree_less(a, b, j, i);
    lemma_agree_less(b, c, k, i);
}

/// Logs that agree have the same entries.
pub proof fn lemma_agree_at(a: Seq<EntryModel>, b: Seq<EntryModel>, k: int, i: int)
    requires
        crate::cluster::agree(a, b, k),
        0 <= i < k,
    ensures
        a[i] == b[i],
{
    assert(a.take(k)[i] == a[i]);
    assert(b.take(k)[i] == b[i]);
}

/// The latest configuration entry of a prefix.
pub proof fn lemma_config_end_prefix(log: Seq<EntryModel>, j: int, m: int)
    requires
        0 <= m <= j <= log.len(),
    ensures
        0 <= crate::model::config_end(log.take(j)) <= j,
        crate::model::config_end(log.take(j)) > 0 ==> crate::model::voters_in(
            log[crate::model::config_end(log.take(j)) - 1],
        ) is Some,
        forall|i: int|
            crate::model::config_end(log.take(j)) <= i < j ==> crate::model::voters_in(
                #[trigger] log[i],
            ) is None,
        crate::model::config_end(log.take(j)) <= m ==> crate::model::config_end(log.take(m))
            == crate::model::config_end(log.take(j)),
        crate::model::config_end(log.take(m)) <= crate::model::config_end(log.take(j)),
{
    let long = log.take(j);
    let short = log.take(m);
    crate::upkeep::lemma_config_end(long);
    crate::upkeep::lemma_config_end(short);
    let end = crate::model::config_end(long);
    assert forall|i: int| end <= i < j implies crate::model::voters_in(
        #[trigger] log[i],
    ) is None by {
        assert(long[i] == log[i]);
    }
    let less = crate::model::config_end(short);
    if less > end {
        assert(short[less - 1] == log[less - 1]);
    }
    if end <= m {
        if end > 0 {
            assert(short[end - 1] == log[end - 1]);
        }
        assert forall|i: int| end <= i < short.len() implies crate::model::voters_in(
            #[trigger] short[i],
        ) is None by {
            assert(short[i] == log[i]);
        }
        crate::upkeep::lemma_config_end_is(short, end);
    }
}

/// The voters in effect after a prefix, by the latest configuration entry in it.
pub proof fn lemma_conf_prefix(founders: Seq<NodeId>, log: Seq<EntryModel>, j: int, m: int)
    requires
        0 <= m <= j <= log.len(),
        crate::model::config_end(log.take(j)) <= m,
    ensures
        crate::cluster::conf(founders, log.take(m)) == crate::cluster::conf(
            founders,
            log.take(j),
        ),
{
    lemma_config_end_prefix(log, j, m);
    let end = crate::model::config_end(log.take(j));
    if end > 0 {
        assert(log.take(m)[end - 1] == log.take(j)[end - 1]);
    }
}

/// The voters in effect after the founders and a tidy log are in ascending order.
pub proof fn lemma_conf_ascending(founders: Seq<NodeId>, log: Seq<EntryModel>)
    requires
        crate::members::ascending(founders),
    ensures
        crate::members::ascending(crate::cluster::conf(founders, log)),
{
    crate::upkeep::lemma_config_end(log);
    let end = crate::model::config_end(log);
    if end > 0 {
        let e = log[end - 1];
        crate::members::lemma_sorted_ids(e.members()->0);
    }
}

/// Sets of voters are close to themselves and in either order.
pub proof fn lemma_close(a: Seq<NodeId>, b: Seq<NodeId>)
    requires
        crate::members::ascending(a),
    ensures
        crate::cluster::close(a, a),
        crate::cluster::close(a, b) ==> crate::cluster::close(b, a),
{
    assert(crate::cluster::differ_in(a, a, 0));
    if crate::cluster::close(a, b) {
        let id = choose|id: NodeId| crate::cluster::differ_in(a, b, id);
        assert(crate::cluster::differ_in(b, a, id));
    }
}

/// A prefix of a tidy log is tidy.
pub proof fn lemma_tidy_prefix(founders: Seq<NodeId>, log: Seq<EntryModel>, k: int)
    requires
        crate::cluster::tidy(founders, log),
        0 <= k <= log.len(),
    ensures
        crate::cluster::tidy(founders, log.take(k)),
{
    let short = log.take(k);
    assert forall|i: int| 0 <= i < short.len() implies {
        let e = #[trigger] short[i];
        e.index == i + 1 && e.term >= 1 && (crate::model::voters_in(e) matches Some(ids)
            ==> crate::cluster::close(crate::cluster::conf(founders, short.take(i)), ids))
    } by {
        assert(short[i] == log[i]);
        assert(short.take(i) =~= log.take(i));
    }
}

/// No entry of a leader's log has a later term than the leader's.
pub proof fn lemma_leader_terms(h: History, founders: Seq<NodeId>, t: Term, i: int)
    requires
        h.leaders.contains_key(t),
        h.leads_well(founders, t),
        0 <= i < h.leaders[t].log.len(),
    ensures
        1 <= h.leaders[t].log[i].term <= t,
        i < h.leaders[t].start.len() ==> h.leaders[t].log[i].term < t,
        h.leaders[t].log[i].term == t ==> i >= h.leaders[t].start.len(),
{
    let l = h.leaders[t];
    if i < l.start.len() {
        assert(l.log.take(l.start.len() as int)[i] == l.log[i]);
        assert(l.start[i] == l.log[i]);
    }
}

/// Terms never fall along a log.
pub proof fn lemma_terms_rise(
    h: History,
    founders: Seq<NodeId>,
    log: Seq<EntryModel>,
    i: int,
    j: int,
)
    requires
        h.coherent(founders),
        h.rooted(log),
        0 <= i <= j < log.len(),
    ensures
        log[i].term <= log[j].term,
{
    let u = log[j].term;
    assert(h.leaders.contains_key(u));
    lemma_agree_at(log, h.leaders[u].log, j + 1, i);
    lemma_leader_terms(h, founders, u, i);
}

/// Logs that share an entry's index and term agree through it.
pub proof fn lemma_rooted_logs_agree(h: History, a: Seq<EntryModel>, b: Seq<EntryModel>, k: int)
    requires
        h.rooted(a),
        h.rooted(b),
        0 <= k < a.len(),
        k < b.len(),
        a[k].term == b[k].term,
    ensures
        crate::cluster::agree(a, b, k + 1),
{
    let u = a[k].term;
    assert(crate::cluster::agree(a, h.leaders[u].log, k + 1));
    assert(crate::cluster::agree(b, h.leaders[u].log, k + 1));
}

/// The records fit together, and the founders are listed in order.
#[verifier::opaque]
pub open spec fn orderly(h: History, founders: Seq<NodeId>) -> bool {
    h.coherent(founders) && crate::members::ascending(founders)
}

/// `log` won the election of `u`: a majority of the voters it names cast their
/// votes for it, and remembered what they had acknowledged, unless a leader before
/// `bound` lacked it.
#[verifier::opaque]
pub open spec fn wins(
    h: History,
    founders: Seq<NodeId>,
    u: Term,
    log: Seq<EntryModel>,
    electors: Set<NodeId>,
    bound: int,
) -> bool {
    &&& crate::cluster::tidy(founders, log)
    &&& crate::cluster::below(log, u as int)
    &&& h.rooted(log)
    &&& forall|t: Term| #[trigger] h.early(t) && t < u ==> h.covered(t, log)
    &&& crate::cluster::majority(
        crate::cluster::conf(founders, log),
        |v: NodeId| electors.contains(v),
    )
    &&& forall|v: NodeId| #[trigger]
        electors.contains(v) ==> {
            &&& h.votes.contains_key((u, v))
            &&& crate::cluster::as_good(log, h.votes[(u, v)].log)
            &&& h.rooted(h.votes[(u, v)].log)
            &&& h.remembers(u, v, bound)
        }
}

/// A leader on record won its election.
proof fn lemma_leader_won(h: History, founders: Seq<NodeId>, u: Term)
    requires
        orderly(h, founders),
        h.leaders.contains_key(u),
    ensures
        wins(h, founders, u, h.leaders[u].start, h.leaders[u].electors, u as int),
{
    reveal(orderly);
    reveal(wins);
    let l = h.leaders[u];
    assert(h.leads_well(founders, u));
    assert(h.stood_well(founders, u, l.node));
    assert forall|v: NodeId| #[trigger] l.electors.contains(v) implies {
        &&& h.votes.contains_key((u, v))
        &&& crate::cluster::as_good(l.start, h.votes[(u, v)].log)
        &&& h.rooted(h.votes[(u, v)].log)
        &&& h.remembers(u, v, u as int)
    } by {
        assert(h.voted_well(founders, u, v));
    }
}

/// Where a majority behind the first `k` entries of the leader of `t` and the
/// electors of `u` have a voter in common, the winner has those entries.
#[verifier::rlimit(40)]
proof fn lemma_common_voter(
    h: History,
    founders: Seq<NodeId>,
    u: Term,
    log: Seq<EntryModel>,
    electors: Set<NodeId>,
    bound: int,
    t: Term,
    k: int,
    j: int,
)
    requires
        h.coherent(founders),
        wins(h, founders, u, log, electors, bound),
        h.held(founders, t, k, j),
        t < u,
        !h.dropped(t, k, bound),
        crate::cluster::end_term(log) <= t,
        crate::cluster::close(
            crate::cluster::conf(founders, log),
            crate::cluster::conf(founders, h.leaders[t].log.take(j)),
        ),
    ensures
        crate::cluster::agree(log, h.leaders[t].log, k),
{
    reveal(wins);
    let lead = h.leaders[t].log;
    let v = lemma_close_majorities_meet(
        crate::cluster::conf(founders, log),
        crate::cluster::conf(founders, lead.take(j)),
        |v: NodeId| electors.contains(v),
        h.backs(t, k),
    );
    assert(electors.contains(v));
    let w = h.votes[(u, v)].log;
    assert(h.retains(w, t, k, bound));
    assert(crate::cluster::agree(w, lead, k));
    lemma_agree_at(w, lead, k, k - 1);
    lemma_terms_rise(h, founders, w, k - 1, w.len() - 1);
    assert(h.leads_well(founders, t));
    assert(log.len() > 0);
    lemma_rooted_agree_at_ends(h, log, w);
    lemma_agree_through(log, w, lead, w.len() as int, k, k);
}

/// A configuration entry that `log` ends its configurations with follows the one
/// that `other` ends its with, if `other` has as much of the leader's log as was
/// chosen when the entry was created.
#[verifier::rlimit(40)]
proof fn lemma_next_configuration(
    h: History,
    founders: Seq<NodeId>,
    log: Seq<EntryModel>,
    other: Seq<EntryModel>,
    s: Term,
)
    requires
        h.coherent(founders),
        crate::members::ascending(founders),
        h.rooted(log),
        crate::model::config_end(log) > 0,
        log[crate::model::config_end(log) - 1].term == s,
        h.grounded(founders, s, crate::model::config_end(log) - 1),
        forall|k: int| #[trigger]
            h.chosen(founders, s, k) ==> crate::cluster::agree(other, h.leaders[s].log, k),
        crate::model::config_end(other) > 0 ==> crate::model::config_end(other)
            < crate::model::config_end(log) && h.leaders[s].log[crate::model::config_end(other)
            - 1] == other[crate::model::config_end(other) - 1],
    ensures
        crate::cluster::close(
            crate::cluster::conf(founders, other),
            crate::cluster::conf(founders, log),
        ),
{
    let a = crate::model::config_end(other);
    let b = crate::model::config_end(log);
    let lead = h.leaders[s].log;
    crate::upkeep::lemma_config_end(log);
    crate::upkeep::lemma_config_end(other);
    assert(h.leaders.contains_key(s));
    assert(h.leads_well(founders, s));
    lemma_agree_at(log, lead, b, b - 1);
    lemma_leader_terms(h, founders, s, b - 1);
    assert(crate::model::voters_in(lead[b - 1]) is Some);
    let before = lead.take(b - 1);
    let c = crate::model::config_end(before);
    let (k, j) = choose|k: int, j: int|
        #![trigger h.held(founders, s, k, j)]
        h.held(founders, s, k, j) && j <= b - 1 && c <= k;
    assert(h.chosen(founders, s, k));
    assert(crate::cluster::agree(other, lead, k));
    lemma_config_end_prefix(lead, b - 1, b - 1);
    assert(c <= a) by {
        if c > 0 {
            lemma_agree_at(other, lead, k, c - 1);
        }
    }
    assert(a <= c) by {
        if a > 0 {
            assert(lead[a - 1] == other[a - 1]);
        }
    }
    assert(crate::cluster::conf(founders, before) == crate::cluster::conf(founders, other)) by {
        if a > 0 {
            assert(before[a - 1] == lead[a - 1]);
        }
    }
    assert(crate::cluster::conf(founders, log) == crate::model::voters_in(lead[b - 1])->0);
}

/// The first configuration entry of a leader that was uncontested, which `log` ends
/// its configurations with, follows the one that `other` ends its with, if `other`
/// has whatever was chosen before and no configuration that this leader lacked.
#[verifier::rlimit(40)]
proof fn lemma_first_configuration(
    h: History,
    founders: Seq<NodeId>,
    log: Seq<EntryModel>,
    other: Seq<EntryModel>,
    s: Term,
)
    requires
        h.coherent(founders),
        crate::members::ascending(founders),
        h.rooted(log),
        crate::cluster::tidy(founders, other),
        crate::model::config_end(log) > 0,
        log[crate::model::config_end(log) - 1].term == s,
        h.early(s),
        crate::model::config_end(h.leaders[s].log.take(crate::model::config_end(log) - 1))
            <= h.leaders[s].start.len(),
        h.covered(s, other),
        forall|t: Term, k: int| #[trigger]
            h.chosen(founders, t, k) && t < s ==> crate::cluster::agree(
                other,
                h.leaders[t].log,
                k,
            ),
        crate::model::config_end(other) > 0 ==> other[crate::model::config_end(other) - 1].term < s,
    ensures
        crate::cluster::close(
            crate::cluster::conf(founders, other),
            crate::cluster::conf(founders, log),
        ),
{
    let a = crate::model::config_end(other);
    let b = crate::model::config_end(log);
    let lead = h.leaders[s].log;
    let start = h.leaders[s].start;
    let sl = start.len() as int;
    crate::upkeep::lemma_config_end(log);
    crate::upkeep::lemma_config_end(other);
    assert(h.leads_well(founders, s));
    assert(crate::cluster::agree(log, lead, b));
    lemma_agree_at(log, lead, b, b - 1);
    lemma_leader_terms(h, founders, s, b - 1);
    let before = lead.take(b - 1);
    let c = crate::model::config_end(before);
    lemma_config_end_prefix(lead, b - 1, sl);
    assert(lead.take(sl) == start);
    assert(crate::model::config_end(start) == c);
    assert(a <= c) by {
        if a > 0 {
            assert(h.covers(s, other[a - 1]));
            assert(start[a - 1] == other[a - 1]);
            assert(lead.take(sl)[a - 1] == lead[a - 1]);
            assert(lead[a - 1] == other[a - 1]);
        }
    }
    assert(c <= a) by {
        if c > 0 {
            let (t, k) = choose|t: Term, k: int|
                #![trigger h.chosen(founders, t, k)]
                h.chosen(founders, t, k) && t <= (s - 1) as Term && c <= k && crate::cluster::agree(
                    start,
                    h.leaders[t].log,
                    c,
                );
            assert(crate::cluster::agree(other, h.leaders[t].log, k));
            lemma_agree_at(other, h.leaders[t].log, k, c - 1);
            lemma_agree_at(start, h.leaders[t].log, c, c - 1);
            assert(lead.take(sl)[c - 1] == lead[c - 1]);
            assert(crate::model::voters_in(other[c - 1]) is Some);
        }
    }
    assert(crate::cluster::conf(founders, before) == crate::cluster::conf(founders, other)) by {
        if a > 0 {
            assert(before[a - 1] == lead[a - 1]);
            assert(lead.take(sl)[a - 1] == lead[a - 1]);
        }
    }
    assert(crate::cluster::conf(founders, log) == crate::model::voters_in(lead[b - 1])->0);
}

/// Two logs that have whatever was chosen before `bound`, and no configuration that
/// a leader uncontested before then lacked, name voters that differ in one at most.
#[verifier::rlimit(40)]
pub proof fn lemma_configurations_close(
    h: History,
    founders: Seq<NodeId>,
    p: Seq<EntryModel>,
    q: Seq<EntryModel>,
    bound: Term,
)
    requires
        h.coherent(founders),
        crate::members::ascending(founders),
        h.rooted(p),
        h.rooted(q),
        crate::cluster::below(p, bound as int),
        crate::cluster::below(q, bound as int),
        crate::cluster::tidy(founders, p),
        crate::cluster::tidy(founders, q),
        forall|u: Term| #[trigger]
            h.early(u) && u < bound ==> h.covered(u, p) && h.covered(u, q),
        forall|s: Term, k: int| #[trigger]
            h.chosen(founders, s, k) && s < bound ==> crate::cluster::agree(
                p,
                h.leaders[s].log,
                k,
            ) && crate::cluster::agree(q, h.leaders[s].log, k),
    ensures
        crate::cluster::close(
            crate::cluster::conf(founders, p),
            crate::cluster::conf(founders, q),
        ),
{
    let a = crate::model::config_end(p);
    let b = crate::model::config_end(q);
    crate::upkeep::lemma_config_end(p);
    crate::upkeep::lemma_config_end(q);
    lemma_conf_ascending(founders, p);
    lemma_conf_ascending(founders, q);
    lemma_close(crate::cluster::conf(founders, p), crate::cluster::conf(founders, q));
    lemma_close(crate::cluster::conf(founders, q), crate::cluster::conf(founders, p));
    if a == 0 && b == 0 {
    } else if a == 0 {
        lemma_later_configuration(h, founders, q, p, bound);
    } else if b == 0 {
        lemma_later_configuration(h, founders, p, q, bound);
    } else {
        let s = p[a - 1].term;
        let t = q[b - 1].term;
        assert(crate::cluster::agree(p, h.leaders[s].log, a));
        assert(crate::cluster::agree(q, h.leaders[t].log, b));
        lemma_agree_at(p, h.leaders[s].log, a, a - 1);
        lemma_agree_at(q, h.leaders[t].log, b, b - 1);
        if s == t && a == b {
        } else if s < t || (s == t && a < b) {
            lemma_later_configuration(h, founders, q, p, bound);
        } else {
            lemma_later_configuration(h, founders, p, q, bound);
        }
    }
}

/// The case of a log that ends its configurations with an entry of a later term, or
/// of the same term and further on.
#[verifier::rlimit(40)]
proof fn lemma_later_configuration(
    h: History,
    founders: Seq<NodeId>,
    log: Seq<EntryModel>,
    other: Seq<EntryModel>,
    bound: Term,
)
    requires
        h.coherent(founders),
        crate::members::ascending(founders),
        h.rooted(log),
        h.rooted(other),
        crate::cluster::below(log, bound as int),
        crate::cluster::tidy(founders, other),
        forall|u: Term| #[trigger] h.early(u) && u < bound ==> h.covered(u, other),
        forall|s: Term, k: int| #[trigger]
            h.chosen(founders, s, k) && s < bound ==> crate::cluster::agree(
                other,
                h.leaders[s].log,
                k,
            ),
        ({
            let a = crate::model::config_end(other);
            let b = crate::model::config_end(log);
            &&& b > 0
            &&& a > 0 ==> other[a - 1].term < log[b - 1].term || (other[a - 1].term == log[b
                - 1].term && a < b)
        }),
    ensures
        crate::cluster::close(
            crate::cluster::conf(founders, other),
            crate::cluster::conf(founders, log),
        ),
{
    let a = crate::model::config_end(other);
    let b = crate::model::config_end(log);
    let t = log[b - 1].term;
    let lead = h.leaders[t].log;
    crate::upkeep::lemma_config_end(log);
    crate::upkeep::lemma_config_end(other);
    assert(crate::cluster::agree(log, lead, b));
    lemma_agree_at(log, lead, b, b - 1);
    assert(h.leads_well(founders, t));
    lemma_leader_terms(h, founders, t, b - 1);
    assert(crate::model::voters_in(lead[b - 1]) is Some);
    assert(h.founded(founders, t, b - 1));
    if h.grounded(founders, t, b - 1) {
        if a > 0 {
            if other[a - 1].term < t {
                lemma_earlier_configuration(h, founders, log, other, t);
            } else {
                assert(crate::cluster::agree(other, lead, a));
                lemma_agree_at(other, lead, a, a - 1);
            }
        }
        lemma_next_configuration(h, founders, log, other, t);
    } else {
        if a > 0 && other[a - 1].term == t {
            assert(crate::cluster::agree(other, lead, a));
            lemma_agree_at(other, lead, a, a - 1);
            lemma_leader_terms(h, founders, t, a - 1);
            lemma_config_end_prefix(lead, b - 1, b - 1);
            assert(false);
        }
        lemma_first_configuration(h, founders, log, other, t);
    }
}

/// A configuration entry of an earlier term comes before one of a later term, in
/// the later leader's log too.
#[verifier::rlimit(40)]
proof fn lemma_earlier_configuration(
    h: History,
    founders: Seq<NodeId>,
    log: Seq<EntryModel>,
    other: Seq<EntryModel>,
    s: Term,
)
    requires
        h.coherent(founders),
        h.rooted(log),
        h.rooted(other),
        crate::model::config_end(log) > 0,
        log[crate::model::config_end(log) - 1].term == s,
        h.grounded(founders, s, crate::model::config_end(log) - 1),
        forall|k: int| #[trigger]
            h.chosen(founders, s, k) ==> crate::cluster::agree(other, h.leaders[s].log, k),
        crate::model::config_end(other) > 0,
        other[crate::model::config_end(other) - 1].term < s,
    ensures
        crate::model::config_end(other) < crate::model::config_end(log),
        h.leaders[s].log[crate::model::config_end(other) - 1] == other[crate::model::config_end(
            other,
        ) - 1],
{
    let a = crate::model::config_end(other);
    let b = crate::model::config_end(log);
    let lead = h.leaders[s].log;
    crate::upkeep::lemma_config_end(log);
    crate::upkeep::lemma_config_end(other);
    assert(h.leaders.contains_key(s));
    assert(h.leads_well(founders, s));
    lemma_agree_at(log, lead, b, b - 1);
    lemma_leader_terms(h, founders, s, b - 1);
    assert(crate::model::voters_in(lead[b - 1]) is Some);
    let (k, j) = choose|k: int, j: int|
        #![trigger h.held(founders, s, k, j)]
        h.held(founders, s, k, j) && j <= b - 1 && crate::model::config_end(lead.take(b - 1)) <= k;
    assert(h.chosen(founders, s, k));
    lemma_agree_at(other, lead, k, k - 1);
    if a > k {
        lemma_terms_rise(h, founders, other, k - 1, a - 1);
    }
    lemma_agree_at(other, lead, k, a - 1);
}

/// A log has all that the leader of its last entry started out with.
proof fn lemma_end_is_rooted(h: History, founders: Seq<NodeId>, log: Seq<EntryModel>)
    requires
        orderly(h, founders),
        h.rooted(log),
        log.len() > 0,
    ensures
        h.leaders.contains_key(crate::cluster::end_term(log)),
        ({
            let start = h.leaders[crate::cluster::end_term(log)].start;
            crate::cluster::agree(log, start, start.len() as int)
        }),
{
    reveal(orderly);
    let z = log.len() - 1;
    let x = log[z].term;
    let l = h.leaders[x];
    assert(h.leaders.contains_key(x));
    assert(h.leads_well(founders, x));
    assert(crate::cluster::agree(log, l.log, z + 1));
    lemma_agree_at(log, l.log, z + 1, z);
    lemma_leader_terms(h, founders, x, z);
    assert(crate::cluster::agree(l.log, l.start, l.start.len() as int)) by {
        assert(l.start.take(l.start.len() as int) =~= l.start);
    }
    lemma_agree_through(log, l.log, l.start, z + 1, l.start.len() as int, l.start.len() as int);
}

/// What was chosen in a term, whoever wins a later one has.
#[verifier::rlimit(40)]
pub proof fn lemma_winner_has_chosen(
    h: History,
    founders: Seq<NodeId>,
    u: Term,
    log: Seq<EntryModel>,
    electors: Set<NodeId>,
    bound: int,
    t: Term,
    k: int,
    j: int,
)
    requires
        orderly(h, founders),
        wins(h, founders, u, log, electors, bound),
        u <= bound <= u + 1,
        h.held(founders, t, k, j),
        t < u,
    ensures
        crate::cluster::agree(log, h.leaders[t].log, k),
    decreases u, t, bound - u, j, 1int,
{
    let lead = h.leaders[t].log;
    let x = crate::cluster::end_term(log);
    if h.dropped(t, k, bound) {
        let y = choose|y: Term|
            t < y < bound && #[trigger] h.leaders.contains_key(y) && !h.carries(y, t, k);
        let l = h.leaders[y];
        lemma_leader_won(h, founders, y);
        lemma_winner_has_chosen(h, founders, y, l.start, l.electors, y as int, t, k, j);
        assert(false);
    }
    if x > t {
        let l = h.leaders[x];
        assert(h.rooted(log) && x < u) by {
            reveal(wins);
        }
        lemma_end_is_rooted(h, founders, log);
        lemma_leader_won(h, founders, x);
        lemma_winner_has_chosen(h, founders, x, l.start, l.electors, x as int, t, k, j);
        lemma_agree_through(log, l.start, lead, l.start.len() as int, k, k);
    } else if x == t {
        lemma_winner_of_same_origin(h, founders, u, log, electors, bound, t, k, j);
    } else {
        lemma_winner_of_other_origin(h, founders, u, log, electors, bound, t, k, j);
    }
}

/// The case of a winner whose log the leader of `t` ended.
#[verifier::rlimit(40)]
proof fn lemma_winner_of_same_origin(
    h: History,
    founders: Seq<NodeId>,
    u: Term,
    log: Seq<EntryModel>,
    electors: Set<NodeId>,
    bound: int,
    t: Term,
    k: int,
    j: int,
)
    requires
        orderly(h, founders),
        wins(h, founders, u, log, electors, bound),
        u <= bound <= u + 1,
        h.held(founders, t, k, j),
        t < u,
        !h.dropped(t, k, bound),
        crate::cluster::end_term(log) == t,
    ensures
        crate::cluster::agree(log, h.leaders[t].log, k),
    decreases u, t, bound - u, j, 0int,
{
    reveal(orderly);
    reveal(wins);
    let lead = h.leaders[t].log;
    assert(h.leads_well(founders, t));
    assert(log.len() > 0);
    let m = log.len() as int;
    assert(log[m - 1].term == t);
    assert(crate::cluster::agree(log, lead, m));
    lemma_agree_at(log, lead, m, m - 1);
    lemma_leader_terms(h, founders, t, m - 1);
    if m >= k {
        lemma_agree_less(log, lead, m, k);
    } else {
        assert(log =~= lead.take(m)) by {
            assert(log.take(m) =~= log);
        }
        let e = crate::model::config_end(lead.take(j));
        lemma_config_end_prefix(lead, j, m);
        lemma_conf_ascending(founders, log);
        lemma_close(crate::cluster::conf(founders, log), crate::cluster::conf(founders, log));
        if e <= m {
            lemma_conf_prefix(founders, lead, j, m);
            lemma_common_voter(h, founders, u, log, electors, bound, t, k, j);
        } else {
            let d = crate::model::config_end(lead.take(e - 1));
            assert(crate::cluster::conf(founders, lead.take(j)) == crate::model::voters_in(
                lead[e - 1],
            )->0) by {
                assert(lead.take(j)[e - 1] == lead[e - 1]);
            }
            if d <= m {
                lemma_conf_prefix(founders, lead, e - 1, m);
                lemma_common_voter(h, founders, u, log, electors, bound, t, k, j);
            } else {
                assert(h.founded(founders, t, e - 1));
                assert(h.grounded(founders, t, e - 1));
                let (k2, j2) = choose|k2: int, j2: int|
                    #![trigger h.held(founders, t, k2, j2)]
                    h.held(founders, t, k2, j2) && j2 <= e - 1 && d <= k2;
                lemma_winner_has_chosen(h, founders, u, log, electors, bound, t, k2, j2);
                assert(false);
            }
        }
    }
}

/// The case of a winner whose log ends before the term `t`.
#[verifier::rlimit(40)]
proof fn lemma_winner_of_other_origin(
    h: History,
    founders: Seq<NodeId>,
    u: Term,
    log: Seq<EntryModel>,
    electors: Set<NodeId>,
    bound: int,
    t: Term,
    k: int,
    j: int,
)
    requires
        orderly(h, founders),
        wins(h, founders, u, log, electors, bound),
        u <= bound <= u + 1,
        h.held(founders, t, k, j),
        t < u,
        !h.dropped(t, k, bound),
        crate::cluster::end_term(log) < t,
    ensures
        crate::cluster::agree(log, h.leaders[t].log, k),
    decreases u, t, bound - u, j, 0int,
{
    reveal(orderly);
    reveal(wins);
    let lead = h.leaders[t].log;
    let start = h.leaders[t].start;
    let sl = start.len() as int;
    assert(h.leads_well(founders, t));
    lemma_leader_terms(h, founders, t, k - 1);
    let e = crate::model::config_end(lead.take(j));
    lemma_config_end_prefix(lead, j, sl);
    assert forall|i: int| 0 <= i < log.len() implies (#[trigger] log[i]).term < t by {
        lemma_terms_rise(h, founders, log, i, log.len() - 1);
    }
    if e <= sl {
        lemma_conf_prefix(founders, lead, j, sl);
        lemma_leader_won(h, founders, t);
        assert(h.rooted(start));
        assert forall|s: Term, n: int| #[trigger]
            h.chosen(founders, s, n) && s < t implies crate::cluster::agree(
            log,
            h.leaders[s].log,
            n,
        ) && crate::cluster::agree(start, h.leaders[s].log, n) by {
            let i = choose|i: int| h.held(founders, s, n, i);
            lemma_winner_has_chosen(h, founders, u, log, electors, bound, s, n, i);
            lemma_winner_has_chosen(
                h,
                founders,
                t,
                start,
                h.leaders[t].electors,
                t as int,
                s,
                n,
                i,
            );
        }
        lemma_configurations_close(h, founders, log, start, t);
        lemma_common_voter(h, founders, u, log, electors, bound, t, k, j);
    } else if !h.grounded(founders, t, e - 1) {
        let part = lead.take(j);
        assert(h.founded(founders, t, e - 1));
        crate::steps::lemma_rooted_prefix(h, lead, j);
        assert(part[e - 1] == lead[e - 1]);
        crate::upkeep::lemma_config_end(log);
        assert forall|s: Term, n: int| #[trigger]
            h.chosen(founders, s, n) && s < t implies crate::cluster::agree(
            log,
            h.leaders[s].log,
            n,
        ) by {
            let i = choose|i: int| h.held(founders, s, n, i);
            lemma_winner_has_chosen(h, founders, u, log, electors, bound, s, n, i);
        }
        lemma_first_configuration(h, founders, part, log, t);
        lemma_common_voter(h, founders, u, log, electors, bound, t, k, j);
    } else {
        let (k2, j2) = choose|k2: int, j2: int|
            #![trigger h.held(founders, t, k2, j2)]
            h.held(founders, t, k2, j2) && j2 <= e - 1 && crate::model::config_end(
                lead.take(e - 1),
            ) <= k2;
        lemma_winner_has_chosen(h, founders, u, log, electors, bound, t, k2, j2);
        lemma_agree_at(log, lead, k2, k2 - 1);
        assert(false);
    }
}

/// What was chosen in a term, every later leader starts out with.
pub proof fn lemma_chosen_is_carried(
    h: History,
    founders: Seq<NodeId>,
    t: Term,
    k: int,
    u: Term,
)
    requires
        h.coherent(founders),
        crate::members::ascending(founders),
        h.chosen(founders, t, k),
        h.leaders.contains_key(u),
        t < u,
    ensures
        h.carries(u, t, k),
{
    reveal(orderly);
    let j = choose|j: int| h.held(founders, t, k, j);
    let l = h.leaders[u];
    lemma_leader_won(h, founders, u);
    lemma_winner_has_chosen(h, founders, u, l.start, l.electors, u as int, t, k, j);
}

/// A term that has a leader has no other winner.
pub proof fn lemma_one_winner(
    h: History,
    founders: Seq<NodeId>,
    u: Term,
    log: Seq<EntryModel>,
    electors: Set<NodeId>,
    n: NodeId,
)
    requires
        h.coherent(founders),
        crate::members::ascending(founders),
        h.leaders.contains_key(u),
        wins(h, founders, u, log, electors, u + 1),
        forall|v: NodeId| #[trigger]
            electors.contains(v) ==> h.votes[(u, v)].candidate == n,
    ensures
        h.leaders[u].node == n,
{
    reveal(orderly);
    let l = h.leaders[u];
    lemma_leader_won(h, founders, u);
    assert forall|s: Term, k: int| #[trigger]
        h.chosen(founders, s, k) && s < u implies crate::cluster::agree(
        log,
        h.leaders[s].log,
        k,
    ) && crate::cluster::agree(l.start, h.leaders[s].log, k) by {
        let j = choose|j: int| h.held(founders, s, k, j);
        lemma_winner_has_chosen(h, founders, u, log, electors, u + 1, s, k, j);
        lemma_winner_has_chosen(h, founders, u, l.start, l.electors, u as int, s, k, j);
    }
    reveal(wins);
    lemma_configurations_close(h, founders, log, l.start, u);
    let v = lemma_close_majorities_meet(
        crate::cluster::conf(founders, log),
        crate::cluster::conf(founders, l.start),
        |v: NodeId| electors.contains(v),
        |v: NodeId| l.electors.contains(v),
    );
    assert(electors.contains(v));
    assert(l.electors.contains(v));
    assert(h.leads_well(founders, u));
}

/// Logs that end in the same term agree through the end of the shorter.
proof fn lemma_rooted_agree_at_ends(h: History, long: Seq<EntryModel>, short: Seq<EntryModel>)
    requires
        h.rooted(long),
        h.rooted(short),
        0 < short.len() <= long.len(),
        long.last().term == short.last().term,
    ensures
        crate::cluster::agree(long, short, short.len() as int),
{
    let u = long.last().term;
    let z = short.len() - 1;
    assert(crate::cluster::agree(long, h.leaders[u].log, (long.len() - 1) + 1)) by {
        assert(long[long.len() - 1].term == u);
    }
    assert(crate::cluster::agree(short, h.leaders[u].log, z + 1)) by {
        assert(short[z].term == u);
    }
    lemma_agree_less(short, h.leaders[u].log, z + 1, z + 1);
    lemma_agree_through(
        long,
        h.leaders[u].log,
        short,
        long.len() as int,
        short.len() as int,
        short.len() as int,
    );
}

/// What was chosen in a term, every leader of that or a later term has.
pub proof fn lemma_chosen_is_held(h: History, founders: Seq<NodeId>, t: Term, k: int, u: Term)
    requires
        h.coherent(founders),
        crate::members::ascending(founders),
        h.chosen(founders, t, k),
        h.leaders.contains_key(u),
        t <= u,
    ensures
        crate::cluster::agree(h.leaders[u].log, h.leaders[t].log, k),
{
    if t < u {
        lemma_chosen_is_carried(h, founders, t, k, u);
        let l = h.leaders[u];
        assert(h.leads_well(founders, u));
        assert(crate::cluster::agree(l.log, l.start, l.start.len() as int)) by {
            assert(l.start.take(l.start.len() as int) =~= l.start);
        }
        lemma_agree_through(l.log, l.start, h.leaders[t].log, l.start.len() as int, k, k);
    }
}

/// Two chosen prefixes agree as far as both reach.
pub proof fn lemma_chosen_agree(
    h: History,
    founders: Seq<NodeId>,
    t: Term,
    k: int,
    u: Term,
    j: int,
    i: int,
)
    requires
        h.coherent(founders),
        crate::members::ascending(founders),
        h.chosen(founders, t, k),
        h.chosen(founders, u, j),
        0 <= i <= k,
        i <= j,
    ensures
        crate::cluster::agree(h.leaders[t].log, h.leaders[u].log, i),
{
    if t <= u {
        lemma_chosen_is_held(h, founders, t, k, u);
        lemma_agree_less(h.leaders[u].log, h.leaders[t].log, k, i);
    } else {
        lemma_chosen_is_held(h, founders, u, j, t);
        lemma_agree_less(h.leaders[t].log, h.leaders[u].log, j, i);
    }
}

/// What was chosen, an uncontested leader covers.
pub proof fn lemma_settled_is_covered(
    h: History,
    founders: Seq<NodeId>,
    log: Seq<EntryModel>,
    count: int,
    bound: Term,
    u: Term,
)
    requires
        h.coherent(founders),
        crate::members::ascending(founders),
        crate::cluster::tidy(founders, log),
        0 <= count <= log.len(),
        h.settled(founders, log, count, bound),
        h.early(u),
    ensures
        h.covered(u, log.take(count)),
{
    if count > 0 {
        let (t, k) = choose|t: Term, k: int|
            #![trigger h.chosen(founders, t, k)]
            h.chosen(founders, t, k) && t <= bound && count <= k && crate::cluster::agree(
                log,
                h.leaders[t].log,
                count,
            );
        let part = log.take(count);
        let start = h.leaders[u].start;
        if t < u {
            lemma_chosen_is_carried(h, founders, t, k, u);
        }
        assert(h.leads_well(founders, t));
        assert(h.leads_well(founders, u));
        assert forall|i: int| 0 <= i < part.len() implies h.covers(u, #[trigger] part[i]) by {
            let e = part[i];
            assert(e == log[i]);
            lemma_agree_at(log, h.leaders[t].log, count, i);
            if e.term < u && crate::model::voters_in(e) is Some {
                if t < u {
                    lemma_agree_at(start, h.leaders[t].log, k, i);
                } else if t == u {
                    lemma_leader_terms(h, founders, u, i);
                    assert(h.leaders[u].log.take(start.len() as int)[i] == e);
                } else {
                    let l = h.leaders[t];
                    lemma_leader_terms(h, founders, t, i);
                    assert(l.log.take(l.start.len() as int)[i] == l.log[i]);
                    assert(l.start[i] == e);
                    assert(h.stood_well(founders, t, l.node));
                    assert(h.covered(u, l.start));
                }
            }
        }
    }
}

// ---- what later history keeps --------------------------------------------

/// Agreement with a leader's log outlasts the log's growth.
pub proof fn lemma_agree_lasts(h: History, g: History, log: Seq<EntryModel>, t: Term, k: int)
    requires
        g.continues(h),
        h.leaders.contains_key(t),
        0 <= k <= h.leaders[t].log.len(),
    ensures
        crate::cluster::agree(log, h.leaders[t].log, k) <==> crate::cluster::agree(
            log,
            g.leaders[t].log,
            k,
        ),
{
    let old = h.leaders[t].log;
    let new = g.leaders[t].log;
    assert(crate::cluster::agree(new, old, old.len() as int));
    lemma_agree_less(new, old, old.len() as int, k);
    assert(old.take(k) == new.take(k));
}

/// Being rooted lasts.
pub proof fn lemma_rooted_lasts(h: History, g: History, log: Seq<EntryModel>)
    requires
        g.continues(h),
        h.rooted(log),
    ensures
        g.rooted(log),
{
    assert forall|k: int| 0 <= k < log.len() implies {
        let u = (#[trigger] log[k]).term;
        g.leaders.contains_key(u) && crate::cluster::agree(log, g.leaders[u].log, k + 1)
    } by {
        let u = log[k].term;
        assert(h.leaders.contains_key(u));
        lemma_agree_lasts(h, g, log, u, k + 1);
    }
}

/// Being held by a majority lasts.
pub proof fn lemma_held_lasts(
    h: History,
    g: History,
    founders: Seq<NodeId>,
    t: Term,
    k: int,
    j: int,
)
    requires
        g.continues(h),
        h.held(founders, t, k, j),
    ensures
        g.held(founders, t, k, j),
{
    let old = h.leaders[t].log;
    let new = g.leaders[t].log;
    lemma_agree_at(new, old, old.len() as int, k - 1);
    lemma_agree_less(new, old, old.len() as int, j);
    let voters = crate::cluster::conf(founders, old.take(j));
    assert forall|i: int| 0 <= i < voters.len() && h.backs(t, k)(#[trigger] voters[i]) implies g.backs(
        t,
        k,
    )(voters[i]) by {
        assert(g.acked(t, voters[i]) >= h.acked(t, voters[i]));
    }
    lemma_majority_widens(voters, h.backs(t, k), g.backs(t, k));
}

/// Having been chosen lasts.
pub proof fn lemma_chosen_lasts(h: History, g: History, founders: Seq<NodeId>, t: Term, k: int)
    requires
        g.continues(h),
        h.chosen(founders, t, k),
    ensures
        g.chosen(founders, t, k),
{
    let j = choose|j: int| h.held(founders, t, k, j);
    lemma_held_lasts(h, g, founders, t, k, j);
}

/// Being grounded lasts.
pub proof fn lemma_grounded_lasts(h: History, g: History, founders: Seq<NodeId>, t: Term, p: int)
    requires
        g.continues(h),
        h.leaders.contains_key(t),
        0 <= p <= h.leaders[t].log.len(),
        h.grounded(founders, t, p),
    ensures
        g.grounded(founders, t, p),
{
    let old = h.leaders[t].log;
    let new = g.leaders[t].log;
    lemma_agree_less(new, old, old.len() as int, p);
    let (k, j) = choose|k: int, j: int|
        #![trigger h.held(founders, t, k, j)]
        h.held(founders, t, k, j) && j <= p && crate::model::config_end(old.take(p)) <= k;
    lemma_held_lasts(h, g, founders, t, k, j);
    assert(g.held(founders, t, k, j));
}

/// Being settled lasts, also for a later bound.
pub proof fn lemma_settled_lasts(
    h: History,
    g: History,
    founders: Seq<NodeId>,
    log: Seq<EntryModel>,
    count: int,
    bound: Term,
    later: Term,
)
    requires
        g.continues(h),
        h.settled(founders, log, count, bound),
        bound <= later,
        0 <= count,
    ensures
        g.settled(founders, log, count, later),
{
    if count > 0 {
        let (t, k) = choose|t: Term, k: int|
            #![trigger h.chosen(founders, t, k)]
            h.chosen(founders, t, k) && t <= bound && count <= k && crate::cluster::agree(
                log,
                h.leaders[t].log,
                count,
            );
        lemma_chosen_lasts(h, g, founders, t, k);
        lemma_agree_lasts(h, g, log, t, count);
        assert(g.chosen(founders, t, k));
    }
}

/// Being settled carries over to a log that agrees.
pub proof fn lemma_settled_moves(
    h: History,
    founders: Seq<NodeId>,
    a: Seq<EntryModel>,
    b: Seq<EntryModel>,
    count: int,
    less: int,
    bound: Term,
    later: Term,
)
    requires
        h.settled(founders, a, count, bound),
        0 <= less <= count,
        crate::cluster::agree(b, a, less),
        bound <= later,
    ensures
        h.settled(founders, b, less, later),
{
    if less > 0 {
        let (t, k) = choose|t: Term, k: int|
            #![trigger h.chosen(founders, t, k)]
            h.chosen(founders, t, k) && t <= bound && count <= k && crate::cluster::agree(
                a,
                h.leaders[t].log,
                count,
            );
        lemma_agree_through(b, a, h.leaders[t].log, less, count, less);
        assert(h.chosen(founders, t, k));
    }
}

/// A leader's having dropped entries lasts.
pub proof fn lemma_dropped_lasts(h: History, g: History, t: Term, k: int, bound: int, later: int)
    requires
        g.continues(h),
        h.leaders.contains_key(t),
        0 <= k <= h.leaders[t].log.len(),
        h.dropped(t, k, bound),
        bound <= later,
    ensures
        g.dropped(t, k, later),
{
    let u = choose|u: Term|
        t < u < bound && #[trigger] h.leaders.contains_key(u) && !h.carries(u, t, k);
    lemma_agree_lasts(h, g, h.leaders[u].start, t, k);
    assert(g.leaders.contains_key(u));
    assert(!g.carries(u, t, k));
}

/// Retaining entries lasts, also for a later bound.
pub proof fn lemma_retains_lasts(
    h: History,
    g: History,
    log: Seq<EntryModel>,
    t: Term,
    k: int,
    bound: int,
    later: int,
)
    requires
        g.continues(h),
        h.leaders.contains_key(t),
        0 <= k <= h.leaders[t].log.len(),
        h.retains(log, t, k, bound),
        bound <= later,
    ensures
        g.retains(log, t, k, later),
{
    lemma_agree_lasts(h, g, log, t, k);
    if h.dropped(t, k, bound) {
        lemma_dropped_lasts(h, g, t, k, bound, later);
    }
}

/// What a voter remembered, it remembers, as long as nothing is added to what it
/// acknowledged before.
pub proof fn lemma_remembers_lasts(
    h: History,
    g: History,
    founders: Seq<NodeId>,
    t: Term,
    v: NodeId,
    bound: int,
)
    requires
        g.continues(h),
        h.coherent(founders),
        h.votes.contains_key((t, v)),
        h.remembers(t, v, bound),
        forall|s: Term| s < t ==> #[trigger] g.acked(s, v) == h.acked(s, v),
    ensures
        g.remembers(t, v, bound),
{
    let log = h.votes[(t, v)].log;
    assert(g.votes[(t, v)] == h.votes[(t, v)]);
    assert forall|s: Term, k: int|
        #![trigger g.retains(g.votes[(t, v)].log, s, k, bound)]
        s < t && 1 <= k <= g.acked(s, v) implies g.retains(
        g.votes[(t, v)].log,
        s,
        k,
        bound,
    ) by {
        assert(g.acked(s, v) == h.acked(s, v));
        assert(h.leaders.contains_key(s));
        assert(h.leads_well(founders, s));
        assert(h.acked(s, v) <= h.leaders[s].log.len());
        assert(h.retains(log, s, k, bound));
        lemma_retains_lasts(h, g, log, s, k, bound, bound);
    }
}

/// A log that an uncontested leader covers stays so.
pub proof fn lemma_covered_lasts(h: History, g: History, u: Term, log: Seq<EntryModel>)
    requires
        g.continues(h),
        h.early(u),
        h.covered(u, log),
    ensures
        g.covered(u, log),
{
    assert forall|i: int| 0 <= i < log.len() implies g.covers(u, #[trigger] log[i]) by {
        assert(h.covers(u, log[i]));
    }
}

/// A log that every uncontested leader covers stays so, as long as there is no
/// further one.
pub proof fn lemma_coverage_lasts(h: History, g: History, log: Seq<EntryModel>)
    requires
        g.continues(h),
        forall|u: Term| #[trigger] g.early(u) ==> h.early(u),
        forall|u: Term| #[trigger] h.early(u) ==> h.covered(u, log),
    ensures
        forall|u: Term| #[trigger] g.early(u) ==> g.covered(u, log),
{
    assert forall|u: Term| #[trigger] g.early(u) implies g.covered(u, log) by {
        lemma_covered_lasts(h, g, u, log);
    }
}

/// A true message stays true.
#[verifier::rlimit(40)]
pub proof fn lemma_vouches_lasts(
    h: History,
    g: History,
    founders: Seq<NodeId>,
    to: NodeId,
    m: MessageModel,
)
    requires
        g.continues(h),
        h.vouches(founders, to, m),
        m matches MessageModel::AppendEntries(x) ==> forall|u: Term| #[trigger]
            g.early(u) && !h.early(u) ==> g.covered(u, x.entries),
    ensures
        g.vouches(founders, to, m),
{
    match m {
        MessageModel::RequestVote(x) => {},
        MessageModel::RequestVoteReply(x) => {},
        MessageModel::AppendEntries(x) => {
            let old = h.leaders[x.term].log;
            let new = g.leaders[x.term].log;
            let p = x.prev_log_index as int;
            let n = x.entries.len() as int;
            assert forall|i: int| 0 <= i < old.len() implies new[i] == old[i] by {
                lemma_agree_at(new, old, old.len() as int, i);
            }
            assert(new.subrange(p, p + n) =~= old.subrange(p, p + n));
            assert forall|u: Term| #[trigger] g.early(u) implies g.covered(u, x.entries) by {
                if h.early(u) {
                    lemma_covered_lasts(h, g, u, x.entries);
                }
            }
            lemma_settled_lasts(
                h,
                g,
                founders,
                old,
                x.leader_commit as int,
                x.term,
                x.term,
            );
            lemma_agree_less(new, old, old.len() as int, x.leader_commit as int);
            lemma_settled_moves(
                g,
                founders,
                old,
                new,
                x.leader_commit as int,
                x.leader_commit as int,
                x.term,
                x.term,
            );
        },
        MessageModel::AppendEntriesReply(x) => {
            assert(g.acked(x.term, x.from) >= h.acked(x.term, x.from));
        },
        MessageModel::InstallSnapshot(x) => {
            let old = h.leaders[x.term].log;
            let new = g.leaders[x.term].log;
            let i = x.snapshot.index as int;
            lemma_agree_at(new, old, old.len() as int, i - 1);
            lemma_agree_less(new, old, old.len() as int, i);
            lemma_settled_lasts(h, g, founders, old, i, x.term, x.term);
            lemma_agree_less(new, old, old.len() as int, i);
            lemma_settled_moves(g, founders, old, new, i, i, x.term, x.term);
        },
        MessageModel::InstallSnapshotReply(x) => {
            assert(g.acked(x.term, x.from) >= h.acked(x.term, x.from));
        },
        _ => {},
    }
}

/// A justified application stays justified.
proof fn lemma_justifies_lasts(h: History, g: History, founders: Seq<NodeId>, a: Applied)
    requires
        g.continues(h),
        h.justifies(founders, a),
    ensures
        g.justifies(founders, a),
{
    let (t, k) = choose|t: Term, k: int|
        #![trigger h.chosen(founders, t, k)]
        h.chosen(founders, t, k) && 1 <= a.index <= k && {
            let e = h.leaders[t].log[a.index - 1];
            e.term == a.term && e.command == a.command
        };
    lemma_chosen_lasts(h, g, founders, t, k);
    let old = h.leaders[t].log;
    lemma_agree_at(g.leaders[t].log, old, old.len() as int, a.index - 1);
    assert(g.chosen(founders, t, k));
}

// ---- a step of one node --------------------------------------------------

/// From `h` to `g`, only node `n`, in term `term`, added to the record.
pub open spec fn adds_only(g: History, h: History, n: NodeId, term: Term) -> bool {
    &&& g.continues(h)
    &&& forall|m: NodeId| m != n ==> #[trigger] g.full[m] == h.full[m]
    &&& forall|t: Term| #[trigger]
        g.leaders.contains_key(t) ==> {
            &&& !h.leaders.contains_key(t) ==> t == term && g.leaders[t].node == n
            &&& h.leaders.contains_key(t) && (t != term || h.leaders[t].node != n)
                ==> g.leaders[t] == h.leaders[t]
        }
    &&& forall|x: (Term, NodeId)| #[trigger]
        g.votes.contains_key(x) && !h.votes.contains_key(x) ==> x == (term, n)
    &&& forall|x: (Term, NodeId)| #[trigger]
        g.camps.contains_key(x) && !h.camps.contains_key(x) ==> x == (term, n)
    &&& forall|t: Term, m: NodeId|
        t != term || m != n ==> #[trigger] g.acked(t, m) == h.acked(t, m)
}

/// A leader that was not uncontested before is so now: nothing in the cluster holds
/// a configuration entry of an earlier term that it started out without, no node
/// leads an earlier term, and none has stood in a later one.
pub open spec fn fits_early(c: Cluster, h: History, g: History) -> bool {
    forall|u: Term| #[trigger]
        g.early(u) && !h.early(u) ==> {
            &&& forall|m: NodeId| #[trigger]
                c.nodes.contains_key(m) ==> g.covered(u, h.full[m]) && (c.nodes[m].role
                    == Role::Leader ==> c.nodes[m].term >= u)
            &&& forall|to: NodeId, x: AppendModel| #[trigger]
                c.net.contains((to, MessageModel::AppendEntries(x))) ==> g.covered(u, x.entries)
            &&& forall|x: (Term, NodeId)| #[trigger] h.camps.contains_key(x) ==> x.0 <= u
        }
}

/// The nodes that did not move are as the history says.
#[verifier::rlimit(40)]
proof fn lemma_other_nodes(c: Cluster, h: History, g: History, n: NodeId, term: Term, m: NodeId)
    requires
        c.sound(h),
        adds_only(g, h, n, term),
        fits_early(c, h, g),
        c.nodes.contains_key(m),
        m != n,
    ensures
        g.describes(c.founders, m, c.nodes[m]),
{
    let s = c.nodes[m];
    let log = h.full[m];
    assert(h.describes(c.founders, m, s));
    assert(g.full[m] == h.full[m]);
    lemma_rooted_lasts(h, g, log);
    lemma_settled_lasts(h, g, c.founders, log, s.commit as int, s.term, s.term);
    assert forall|u: Term| #[trigger] g.early(u) implies g.covered(u, log) by {
        if h.early(u) {
            lemma_covered_lasts(h, g, u, log);
        }
    }
    assert(g.votes_match(m, s)) by {
        assert forall|t: Term| #[trigger] g.votes.contains_key((t, m)) implies t <= s.term && (t
            == s.term ==> s.voted_for == Some(g.votes[(t, m)].candidate)) by {
            assert(h.votes.contains_key((t, m)));
        }
        assert forall|t: Term| #[trigger] g.camps.contains_key((t, m)) implies t <= s.term by {
            assert(h.camps.contains_key((t, m)));
        }
        assert forall|t: Term| #[trigger]
            g.leaders.contains_key(t) && g.leaders[t].node == m implies t <= s.term by {
            assert(h.leaders.contains_key(t));
        }
    }
    assert(g.acks_match(m, s.term, log)) by {
        assert forall|t: Term| #[trigger] g.acked(t, m) > 0 implies t <= s.term
            && g.leaders.contains_key(t) by {
            assert(h.acked(t, m) > 0);
            assert(h.leaders.contains_key(t));
        }
        assert forall|t: Term, k: int|
            #![trigger g.retains(log, t, k, s.term + 1)]
            1 <= k <= g.acked(t, m) implies g.retains(log, t, k, s.term + 1) by {
            assert(g.acked(t, m) == h.acked(t, m));
            assert(h.leaders.contains_key(t));
            assert(h.leads_well(c.founders, t));
            assert(h.retains(log, t, k, s.term + 1));
            lemma_retains_lasts(h, g, log, t, k, s.term + 1, s.term + 1);
        }
    }
    if s.role == Role::Candidate {
        assert(g.stands(m, s)) by {
            assert forall|i: int| 0 <= i < s.votes.len() implies {
                let v = #[trigger] s.votes[i];
                g.votes.contains_key((s.term, v)) && g.votes[(s.term, v)].candidate == m
            } by {
                let v = s.votes[i];
                assert(h.votes.contains_key((s.term, v)));
            }
            assert(h.camps.contains_key((s.term, m)));
        }
    }
    if s.role == Role::Leader {
        assert(g.rules(m, s)) by {
            assert(h.leaders.contains_key(s.term));
            assert(g.leaders.contains_key(s.term));
            assert(g.leaders[s.term] == h.leaders[s.term]);
            assert forall|u: Term| #[trigger] g.early(u) && s.term < u implies g.unseen(
                u,
                s.term,
            ) by {
                assert(h.early(u));
                assert(h.unseen(u, s.term));
                assert(g.leaders[u].start == h.leaders[u].start);
            }
            assert forall|i: int| 0 <= i < s.progress.len() implies (
            #[trigger] s.progress[i]).matched <= g.acked(s.term, s.progress[i].peer) by {
                let p = s.progress[i].peer;
                assert(g.acked(s.term, p) >= h.acked(s.term, p));
            }
        }
    }
}

/// The records of other terms and nodes still fit together.
#[verifier::rlimit(40)]
pub proof fn lemma_old_records(c: Cluster, h: History, g: History, n: NodeId, term: Term)
    requires
        c.sound(h),
        adds_only(g, h, n, term),
        fits_early(c, h, g),
        c.nodes.contains_key(n),
        term >= c.nodes[n].term,
        g.leaders.contains_key(term) ==> g.acked(term, n) <= g.leaders[term].log.len(),
    ensures
        forall|t: Term| #[trigger]
            h.leaders.contains_key(t) && g.leaders[t] == h.leaders[t] && (t == term
                ==> g.acked(t, g.leaders[t].node) == g.leaders[t].log.len()) ==> g.leads_well(
                c.founders,
                t,
            ),
        forall|t: Term, v: NodeId| #[trigger]
            h.votes.contains_key((t, v)) ==> g.voted_well(c.founders, t, v),
        forall|t: Term, m: NodeId| #[trigger]
            h.camps.contains_key((t, m)) ==> g.stood_well(c.founders, t, m),
{
    assert(h.describes(c.founders, n, c.nodes[n]));
    assert forall|t: Term, v: NodeId, bound: int|
        h.votes.contains_key((t, v)) && h.remembers(t, v, bound) implies #[trigger] g.remembers(
        t,
        v,
        bound,
    ) by {
        assert forall|s: Term| s < t implies #[trigger] g.acked(s, v) == h.acked(s, v) by {
            if v == n && s == term {
                assert(h.votes.contains_key((t, n)));
            }
        }
        lemma_remembers_lasts(h, g, c.founders, t, v, bound);
    }
    assert forall|t: Term| #[trigger]
        h.leaders.contains_key(t) && g.leaders[t] == h.leaders[t] && (t == term
            ==> g.acked(t, g.leaders[t].node) == g.leaders[t].log.len()) implies g.leads_well(
        c.founders,
        t,
    ) by {
        assert(h.leads_well(c.founders, t));
        let l = h.leaders[t];
        lemma_rooted_lasts(h, g, l.log);
        assert(g.leaders.contains_key(t));
        assert forall|v: NodeId| #[trigger] l.electors.contains(v) implies {
            &&& g.votes.contains_key((t, v))
            &&& g.votes[(t, v)].candidate == l.node
            &&& g.remembers(t, v, t as int)
        } by {
            assert(h.votes.contains_key((t, v)));
            assert(h.remembers(t, v, t as int));
            assert(g.remembers(t, v, t as int));
        }
        assert forall|p: int|
            l.start.len() <= p < l.log.len() && crate::model::voters_in(
                #[trigger] l.log[p],
            ) is Some implies g.founded(c.founders, t, p) by {
            assert(h.founded(c.founders, t, p));
            if h.grounded(c.founders, t, p) {
                lemma_grounded_lasts(h, g, c.founders, t, p);
            }
        }
        if l.early {
            crate::upkeep::lemma_config_end(l.start);
            lemma_settled_lasts(
                h,
                g,
                c.founders,
                l.start,
                crate::model::config_end(l.start),
                (t - 1) as Term,
                (t - 1) as Term,
            );
        }
        assert forall|m: NodeId| #[trigger] g.acked(t, m) <= l.log.len() by {
            assert(h.acked(t, m) <= l.log.len());
        }
        assert(h.acked(t, l.node) == l.log.len());
    }
    assert forall|t: Term, v: NodeId| #[trigger]
        h.votes.contains_key((t, v)) implies g.voted_well(c.founders, t, v) by {
        assert(h.voted_well(c.founders, t, v));
        lemma_rooted_lasts(h, g, h.votes[(t, v)].log);
        assert(g.votes.contains_key((t, v)));
        let cand = h.votes[(t, v)].candidate;
        assert(h.camps.contains_key((t, cand)));
        assert(h.remembers(t, v, t + 1));
        assert(g.remembers(t, v, t + 1));
        if !g.leaders.contains_key(t) {
            assert(!h.leaders.contains_key(t));
            assert(h.remembers(t, v, t as int));
            assert(g.remembers(t, v, t as int));
        }
    }
    assert forall|t: Term, m: NodeId| #[trigger]
        h.camps.contains_key((t, m)) implies g.stood_well(c.founders, t, m) by {
        assert(h.stood_well(c.founders, t, m));
        lemma_rooted_lasts(h, g, h.camps[(t, m)]);
        assert(g.camps.contains_key((t, m)));
        assert forall|u: Term| #[trigger] g.early(u) && u < t implies g.covered(
            u,
            g.camps[(t, m)],
        ) by {
            assert(h.early(u));
            lemma_covered_lasts(h, g, u, h.camps[(t, m)]);
        }
    }
}

/// A step of one node keeps the cluster sound, if the node ends up as its history
/// says, what it adds to the record fits, and what it says is true.
#[verifier::rlimit(40)]
pub proof fn lemma_move(
    c: Cluster,
    h: History,
    g: History,
    n: NodeId,
    next: NodeModel,
    out: Seq<ActionModel>,
)
    requires
        c.sound(h),
        c.nodes.contains_key(n),
        next.term >= c.nodes[n].term,
        adds_only(g, h, n, next.term),
        fits_early(c, h, g),
        g.describes(c.founders, n, next),
        g.leaders.contains_key(next.term) ==> g.leads_well(c.founders, next.term),
        g.votes.contains_key((next.term, n)) ==> g.voted_well(c.founders, next.term, n),
        g.camps.contains_key((next.term, n)) ==> g.stood_well(c.founders, next.term, n),
        forall|i: int|
            0 <= i < out.len() ==> (#[trigger] out[i] matches ActionModel::Send { to, message }
                ==> g.vouches(c.founders, to, message)),
        forall|i: int|
            0 <= i < out.len() ==> (#[trigger] out[i] matches ActionModel::Apply {
                index,
                term,
                command,
            } ==> g.justifies(c.founders, Applied { node: n, index, term, command })),
    ensures
        c.moved(n, next, out).sound(g),
{
    let d = c.moved(n, next, out);
    assert(g.leaders.contains_key(next.term) ==> g.acked(next.term, n) <= g.leaders[
        next.term
    ].log.len());
    lemma_old_records(c, h, g, n, next.term);
    assert forall|m: NodeId| #[trigger] d.nodes.contains_key(m) implies g.describes(
        d.founders,
        m,
        d.nodes[m],
    ) by {
        if m != n {
            assert(c.nodes.contains_key(m));
            lemma_other_nodes(c, h, g, n, next.term, m);
        }
    }
    assert forall|m: NodeId| #[trigger] d.founders.contains(m) implies d.nodes.contains_key(m) by {
        assert(c.nodes.contains_key(m));
    }
    assert forall|x: (NodeId, MessageModel)| #[trigger] d.net.contains(x) implies g.vouches(
        d.founders,
        x.0,
        x.1,
    ) by {
        if c.net.contains(x) {
            assert(x == (x.0, x.1));
            lemma_vouches_lasts(h, g, c.founders, x.0, x.1);
        } else {
            let a = ActionModel::Send { to: x.0, message: x.1 };
            assert(out.contains(a));
            let i = choose|i: int| 0 <= i < out.len() && out[i] == a;
            assert(out[i] == a);
        }
    }
    assert forall|a: Applied| #[trigger] d.applied.contains(a) implies g.justifies(d.founders, a) by {
        if c.applied.contains(a) {
            lemma_justifies_lasts(h, g, c.founders, a);
        } else {
            let x = ActionModel::Apply { index: a.index, term: a.term, command: a.command };
            assert(out.contains(x));
            let i = choose|i: int| 0 <= i < out.len() && out[i] == x;
            assert(out[i] == x);
            assert(a =~= Applied {
                node: n,
                index: a.index,
                term: a.term,
                command: a.command,
            });
        }
    }
    assert forall|x: (Term, NodeId)| #[trigger] g.camps.contains_key(x) implies d.nodes.contains_key(
        x.1,
    ) by {
        if h.camps.contains_key(x) {
            assert(c.nodes.contains_key(x.1));
        }
    }
    assert(g.coherent(d.founders)) by {
        assert forall|t: Term| #[trigger] g.leaders.contains_key(t) implies g.leads_well(
            d.founders,
            t,
        ) by {
            if t != next.term {
                assert(h.leaders.contains_key(t));
            }
        }
        assert forall|t: Term, v: NodeId| #[trigger]
            g.votes.contains_key((t, v)) implies g.voted_well(d.founders, t, v) by {
            if !h.votes.contains_key((t, v)) {
                assert((t, v) == (next.term, n));
            }
        }
        assert forall|t: Term, m: NodeId| #[trigger]
            g.camps.contains_key((t, m)) implies g.stood_well(c.founders, t, m) by {
            if !h.camps.contains_key((t, m)) {
                assert((t, m) == (next.term, n));
            }
        }
        assert forall|t: Term, m: NodeId| #[trigger] g.acked(t, m) > 0 implies g.leaders.contains_key(
            t,
        ) by {
            if t != next.term || m != n {
                assert(h.acked(t, m) > 0);
                assert(h.leaders.contains_key(t));
            }
        }
    }
}

} // verus!
