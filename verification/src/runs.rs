//! What holds of one node over a whole run.
//!
//! A run is any sequence of turns: the node takes an event, whatever it is, or it
//! restarts over the log it has. These are the promises that span more than one
//! step; what each step keeps is in [`laws`](crate::laws).

use crate::config::ConfigModel;
use crate::log::LogModel;
use crate::message::MessageModel;
use crate::model::{ActionModel, EventModel, NodeModel, StepModel};
use crate::types::{EntryKind, EntryModel, Index, NodeId, Role, Term};
use vstd::prelude::*;

verus! {

/// One turn of a run.
#[verifier::ext_equal]
pub enum Turn {
    /// The node takes an event.
    Takes(EventModel),
    /// The node is gone, and one with these settings starts over its log.
    Restarts(ConfigModel),
}

impl NodeModel {
    /// The state a turn leads to, and what is handed out.
    pub open spec fn turned(self, turn: Turn) -> (NodeModel, Seq<ActionModel>) {
        match turn {
            Turn::Takes(event) => match self.step(event) {
                StepModel::Refused(_) => (self, Seq::empty()),
                StepModel::Moved(next, out) => (next, out),
            },
            Turn::Restarts(cfg) => (NodeModel::initial(cfg, self.log), Seq::empty()),
        }
    }

    /// The turn can be taken: counters have room for the event, and a restart
    /// keeps the node's id.
    pub open spec fn may_turn(self, turn: Turn) -> bool {
        match turn {
            Turn::Takes(event) => self.has_room_for(event),
            Turn::Restarts(cfg) => cfg.usable() && cfg.id == self.cfg.id,
        }
    }

    /// The node after a run.
    pub open spec fn run(self, turns: Seq<Turn>) -> NodeModel
        decreases turns.len(),
    {
        if turns.len() == 0 {
            self
        } else {
            self.run(turns.drop_last()).turned(turns.last()).0
        }
    }

    /// Everything handed out in a run, in order.
    pub open spec fn said(self, turns: Seq<Turn>) -> Seq<ActionModel>
        decreases turns.len(),
    {
        if turns.len() == 0 {
            Seq::empty()
        } else {
            self.said(turns.drop_last()) + self.run(turns.drop_last()).turned(turns.last()).1
        }
    }

    /// Every turn of the run can be taken when it comes.
    pub open spec fn may_run(self, turns: Seq<Turn>) -> bool
        decreases turns.len(),
    {
        turns.len() == 0 || (self.may_run(turns.drop_last()) && self.run(
            turns.drop_last(),
        ).may_turn(turns.last()))
    }

    /// The node has waited `n` ticks longer.
    pub open spec fn waited(self, n: nat) -> NodeModel
        decreases n,
    {
        if n == 0 {
            self
        } else {
            self.waited((n - 1) as nat).ticked()
        }
    }
}

/// A node never restarts in the run.
pub open spec fn uninterrupted(turns: Seq<Turn>) -> bool {
    forall|i: int| 0 <= i < turns.len() ==> #[trigger] turns[i] is Takes
}

// ---- what a turn keeps ---------------------------------------------------

/// From `s` to `t` a node kept its id, its term and, within a term, its vote.
pub open spec fn keeps_faith(s: NodeModel, t: NodeModel) -> bool {
    &&& t.cfg.id == s.cfg.id
    &&& t.term >= s.term
    &&& t.term == s.term && s.voted_for is Some ==> t.voted_for == s.voted_for
}

/// A turn keeps the node well formed, and keeps faith.
proof fn lemma_turn(s: NodeModel, turn: Turn)
    requires
        s.wf(),
        s.may_turn(turn),
    ensures
        s.turned(turn).0.wf(),
        keeps_faith(s, s.turned(turn).0),
{
    match turn {
        Turn::Takes(event) => {
            crate::upkeep::law_every_step_keeps_the_node_well_formed(s, event);
            crate::laws::law_terms_never_fall(s, event);
            crate::laws::law_settings_stay(s, event);
            if s.voted_for is Some {
                crate::laws::law_a_vote_is_kept(s, event);
            }
        },
        Turn::Restarts(cfg) => crate::upkeep::lemma_initial(cfg, s.log),
    }
}

/// A run keeps the node well formed.
pub proof fn law_every_run_keeps_the_node_well_formed(s: NodeModel, turns: Seq<Turn>)
    requires
        s.wf(),
        s.may_run(turns),
    ensures
        s.run(turns).wf(),
    decreases turns.len(),
{
    if turns.len() > 0 {
        law_every_run_keeps_the_node_well_formed(s, turns.drop_last());
        lemma_turn(s.run(turns.drop_last()), turns.last());
    }
}

/// At every moment of a run a leader has committed all that it may, if it had at the
/// first; a node that starts out has.
pub proof fn law_a_run_commits_all_it_may(s: NodeModel, turns: Seq<Turn>)
    requires
        s.wf(),
        s.caught_up(),
        s.may_run(turns),
    ensures
        s.run(turns).caught_up(),
    decreases turns.len(),
{
    if turns.len() > 0 {
        let before = turns.drop_last();
        law_a_run_commits_all_it_may(s, before);
        law_every_run_keeps_the_node_well_formed(s, before);
        if let Turn::Takes(event) = turns.last() {
            crate::laws::law_a_leader_has_committed_all_it_may(s.run(before), event);
        }
    }
}

/// From one moment of a run to a later one a node keeps faith, through restarts
/// too.
pub proof fn law_terms_and_votes_outlive_restarts(s: NodeModel, turns: Seq<Turn>, i: int)
    requires
        s.wf(),
        s.may_run(turns),
        0 <= i <= turns.len(),
    ensures
        keeps_faith(s.run(turns.take(i)), s.run(turns)),
    decreases turns.len(),
{
    if i == turns.len() {
        assert(turns.take(i) =~= turns);
    } else {
        let before = turns.drop_last();
        law_terms_and_votes_outlive_restarts(s, before, i);
        law_every_run_keeps_the_node_well_formed(s, before);
        lemma_turn(s.run(before), turns.last());
        assert(before.take(i) =~= turns.take(i));
    }
}

// ---- votes ---------------------------------------------------------------

/// The action grants a vote of `term` to `to`.
pub open spec fn grants(action: ActionModel, term: Term, to: NodeId) -> bool {
    action matches ActionModel::Send { to: whom, message: MessageModel::RequestVoteReply(r) }
        && whom == to && r.vote_granted && r.term == term
}

/// A vote granted anywhere in a run was on record at a moment of it.
proof fn lemma_a_grant_is_on_record(
    s: NodeModel,
    turns: Seq<Turn>,
    a: int,
    term: Term,
    to: NodeId,
) -> (i: int)
    requires
        s.wf(),
        s.may_run(turns),
        0 <= a < s.said(turns).len(),
        grants(s.said(turns)[a], term, to),
    ensures
        0 <= i <= turns.len(),
        s.run(turns.take(i)).term == term,
        s.run(turns.take(i)).voted_for == Some(to),
    decreases turns.len(),
{
    let before = turns.drop_last();
    let m = s.run(before);
    let early = s.said(before);
    if a < early.len() {
        let i = lemma_a_grant_is_on_record(s, before, a, term, to);
        assert(before.take(i) =~= turns.take(i));
        i
    } else {
        law_every_run_keeps_the_node_well_formed(s, before);
        law_every_run_keeps_the_node_well_formed(s, turns);
        assert(turns.take(turns.len() as int) =~= turns);
        if let Turn::Takes(event) = turns.last() {
            crate::laws::law_a_vote_is_recorded_before_it_is_announced(
                m,
                event,
                a - early.len(),
            );
        }
        turns.len() as int
    }
}

/// One vote per term: whatever a node is sent, and however often it restarts over
/// its log, the votes it grants in one term all go to the same node.
pub proof fn law_one_vote_per_term(
    s: NodeModel,
    turns: Seq<Turn>,
    a: int,
    b: int,
    term: Term,
    first: NodeId,
    second: NodeId,
)
    requires
        s.wf(),
        s.may_run(turns),
        0 <= a < s.said(turns).len(),
        0 <= b < s.said(turns).len(),
        grants(s.said(turns)[a], term, first),
        grants(s.said(turns)[b], term, second),
    ensures
        first == second,
{
    let i = lemma_a_grant_is_on_record(s, turns, a, term, first);
    let j = lemma_a_grant_is_on_record(s, turns, b, term, second);
    lemma_votes_agree(s, turns, i, j);
}

/// At two moments of a run in the same term, votes on record are the same.
proof fn lemma_votes_agree(s: NodeModel, turns: Seq<Turn>, i: int, j: int)
    requires
        s.wf(),
        s.may_run(turns),
        0 <= i <= turns.len(),
        0 <= j <= turns.len(),
        s.run(turns.take(i)).term == s.run(turns.take(j)).term,
        s.run(turns.take(i)).voted_for is Some,
        s.run(turns.take(j)).voted_for is Some,
    ensures
        s.run(turns.take(i)).voted_for == s.run(turns.take(j)).voted_for,
{
    let (low, high) = if i <= j {
        (i, j)
    } else {
        (j, i)
    };
    lemma_may_run_part(s, turns, high);
    law_terms_and_votes_outlive_restarts(s, turns.take(high), low);
    assert(turns.take(high).take(low) =~= turns.take(low));
}

/// A part of a run can be run.
proof fn lemma_may_run_part(s: NodeModel, turns: Seq<Turn>, i: int)
    requires
        s.may_run(turns),
        0 <= i <= turns.len(),
    ensures
        s.may_run(turns.take(i)),
    decreases turns.len(),
{
    if i == turns.len() {
        assert(turns.take(i) =~= turns);
    } else {
        lemma_may_run_part(s, turns.drop_last(), i);
        assert(turns.drop_last().take(i) =~= turns.take(i));
    }
}

/// A node that stands for a term, or leads it, grants no other node its vote of
/// that term, before or after, through restarts too.
pub proof fn law_a_candidate_votes_for_no_other(
    s: NodeModel,
    turns: Seq<Turn>,
    i: int,
    a: int,
    to: NodeId,
)
    requires
        s.wf(),
        s.may_run(turns),
        0 <= i <= turns.len(),
        s.run(turns.take(i)).role != Role::Follower,
        0 <= a < s.said(turns).len(),
        grants(s.said(turns)[a], s.run(turns.take(i)).term, to),
    ensures
        to == s.cfg.id,
{
    let here = s.run(turns.take(i));
    let j = lemma_a_grant_is_on_record(s, turns, a, here.term, to);
    lemma_may_run_part(s, turns, i);
    law_every_run_keeps_the_node_well_formed(s, turns.take(i));
    law_terms_and_votes_outlive_restarts(s, turns.take(i), 0);
    assert(turns.take(i).take(0) =~= Seq::<Turn>::empty());
    assert(here.voted_for == Some(s.cfg.id));
    lemma_votes_agree(s, turns, i, j);
}

// ---- application ---------------------------------------------------------

/// The commands of a list of actions have indices above `low` and up to `high`,
/// each once, in order; each is the command of `log` at its index, as far as that
/// is still held, and none that is held is left out.
pub open spec fn applied_over(out: Seq<ActionModel>, log: LogModel, low: int, high: int) -> bool {
    &&& forall|i: int|
        0 <= i < out.len() ==> (#[trigger] out[i] matches ActionModel::Apply {
            index,
            term,
            command,
        } ==> low < index <= high && (log.base_index() < index ==> log.entry(index as int) == Some(
            EntryModel::normal(term, index, command),
        )))
    &&& forall|i: int, j: int|
        0 <= i < j < out.len() && out[i] is Apply && out[j] is Apply ==> (
        #[trigger] out[i])->Apply_index < (#[trigger] out[j])->Apply_index
    &&& forall|index: int|
        low < index <= high && log.holds(index) && (#[trigger] log.at(index)).kind
            == EntryKind::Normal ==> out.contains(
            ActionModel::Apply {
                index: index as Index,
                term: log.at(index).term,
                command: log.at(index).command,
            },
        )
}

/// A further step goes on where the earlier ones stopped.
proof fn lemma_applied_on(
    early: Seq<ActionModel>,
    late: Seq<ActionModel>,
    low: int,
    m: NodeModel,
    t: NodeModel,
)
    requires
        m.wf(),
        t.wf(),
        crate::laws::onward(m, t),
        low <= m.applied,
        applied_over(early, m.log, low, m.applied as int),
        crate::laws::applies_well(late, t.log, m.applied as int, t.applied as int),
    ensures
        applied_over(early + late, t.log, low, t.applied as int),
{
    let out = early + late;
    assert forall|i: int| 0 <= i < out.len() implies (
    #[trigger] out[i] matches ActionModel::Apply { index, term, command } ==> low < index
        <= t.applied && (t.log.base_index() < index ==> t.log.entry(index as int) == Some(
        EntryModel::normal(term, index, command),
    ))) by {
        if i < early.len() {
            assert(out[i] == early[i]);
            if let ActionModel::Apply { index, .. } = early[i] {
                if t.log.base_index() < index {
                    assert(m.log.holds(index as int) && t.log.holds(index as int));
                    assert(m.log.at(index as int) == t.log.at(index as int));
                }
            }
        } else {
            assert(out[i] == late[i - early.len()]);
        }
    }
    assert forall|i: int, j: int|
        0 <= i < j < out.len() && out[i] is Apply && out[j] is Apply implies (
    #[trigger] out[i])->Apply_index < (#[trigger] out[j])->Apply_index by {
        if i < early.len() {
            assert(out[i] == early[i]);
        } else {
            assert(out[i] == late[i - early.len()]);
        }
        if j < early.len() {
            assert(out[j] == early[j]);
        } else {
            assert(out[j] == late[j - early.len()]);
        }
    }
    assert forall|index: int|
        low < index <= t.applied && t.log.holds(index) && (#[trigger] t.log.at(index)).kind
            == EntryKind::Normal implies out.contains(
        ActionModel::Apply {
            index: index as Index,
            term: t.log.at(index).term,
            command: t.log.at(index).command,
        },
    ) by {
        let action = ActionModel::Apply {
            index: index as Index,
            term: t.log.at(index).term,
            command: t.log.at(index).command,
        };
        if index <= m.applied {
            assert(m.log.holds(index));
            assert(m.log.at(index) == t.log.at(index));
            assert(early.contains(action));
            let k = choose|k: int| 0 <= k < early.len() && early[k] == action;
            assert(out[k] == action);
        } else {
            assert(late.contains(action));
            let k = choose|k: int| 0 <= k < late.len() && late[k] == action;
            assert(out[early.len() + k] == action);
        }
    }
}

/// Over any run without a restart every command is applied once, in the order of
/// the log, and none is left out: what is handed out from one moment to another
/// is what the log holds from the index applied then to the index applied now. At
/// both moments that is the commit index, if it was at the first.
pub proof fn law_a_run_applies_every_command_once_and_in_order(s: NodeModel, turns: Seq<Turn>)
    requires
        s.wf(),
        s.applied == s.commit,
        s.may_run(turns),
        uninterrupted(turns),
    ensures
        applied_over(
            s.said(turns),
            s.run(turns).log,
            s.applied as int,
            s.run(turns).applied as int,
        ),
        s.run(turns).applied == s.run(turns).commit,
        s.run(turns).applied >= s.applied,
    decreases turns.len(),
{
    if turns.len() > 0 {
        let before = turns.drop_last();
        let m = s.run(before);
        let t = s.run(turns);
        assert forall|i: int| 0 <= i < before.len() implies #[trigger] before[i] is Takes by {
            assert(before[i] == turns[i]);
        }
        law_a_run_applies_every_command_once_and_in_order(s, before);
        law_every_run_keeps_the_node_well_formed(s, before);
        law_every_run_keeps_the_node_well_formed(s, turns);
        assert(turns.last() is Takes);
        if let Turn::Takes(event) = turns.last() {
            match m.step(event) {
                StepModel::Refused(_) => {
                    assert(s.said(turns) =~= s.said(before));
                },
                StepModel::Moved(next, out) => {
                    crate::laws::lemma_step_onward(m, event);
                    crate::laws::law_commands_are_applied_once_and_in_order(m, event);
                    crate::laws::law_everything_committed_is_applied(m, event);
                    lemma_applied_on(s.said(before), out, s.applied as int, m, t);
                },
            }
        }
    }
}

// ---- the election timer --------------------------------------------------

/// Waiting changes nothing but what is counted.
proof fn lemma_waited(s: NodeModel, n: nat)
    requires
        s.election_elapsed + n <= u32::MAX,
    ensures
        s.waited(n) == (NodeModel {
            election_elapsed: (s.election_elapsed + n) as u32,
            leader_elapsed: s.waited(n).leader_elapsed,
            ..s
        }),
    decreases n,
{
    if n > 0 {
        lemma_waited(s, (n - 1) as nat);
    }
}

/// A node whose timer has just restarted, and that hears nothing but ticks, stands
/// for election on the tick that its drawn timeout says, which lies within the
/// bounds it was configured with. Every tick before that one hands out nothing and
/// changes nothing but what is counted.
pub proof fn law_an_election_comes_when_the_timer_runs_out(s: NodeModel, n: nat)
    requires
        s.wf(),
        s.role != Role::Leader,
        s.is_voter(),
        s.election_elapsed == 0,
        s.term < u64::MAX,
    ensures
        s.cfg.election_timeout_min <= s.election_timeout <= s.cfg.election_timeout_max,
        n < s.election_timeout ==> s.waited(n) == (NodeModel {
            election_elapsed: n as u32,
            leader_elapsed: s.waited(n).leader_elapsed,
            ..s
        }),
        n + 1 < s.election_timeout ==> s.waited(n).step(EventModel::Tick) == StepModel::Moved(
            s.waited(n + 1),
            Seq::empty(),
        ),
        n + 1 == s.election_timeout ==> ({
            let (next, out) = s.waited(n + 1).election(false);
            &&& s.waited(n).step(EventModel::Tick) == StepModel::Moved(next, out)
            &&& next.term == s.term + 1
        }),
{
    if n < s.election_timeout {
        lemma_waited(s, n);
        assert(s.waited(n + 1) == s.waited(n).ticked());
        if n + 1 == s.election_timeout {
            let here = s.waited(n + 1);
            assert(here.voters() == s.voters());
            assert(here.wf());
            crate::upkeep::lemma_election(here, false);
        }
    }
}

} // verus!
