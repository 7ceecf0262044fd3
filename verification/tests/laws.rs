//! The promises of a node and of a cluster, each on one run of events.

use std::collections::BTreeMap;

use raft_io::{
    Action, AppendEntries, AppendEntriesReply, EntryKind, Error, Event, HardState, Index,
    InstallSnapshotReply, LogEntry, MemoryLog, Message, NodeId, PreVote, PreVoteReply, RaftConfig,
    RaftLog, RaftNode, RequestVote, RequestVoteReply, Role, Snapshot, Term,
};

fn vote_request(term: Term, candidate: NodeId, index: Index, log_term: Term) -> Event {
    Event::Message(Message::RequestVote(RequestVote {
        term,
        candidate,
        last_log_index: index,
        last_log_term: log_term,
        force: false,
    }))
}

fn append(
    term: Term,
    leader: NodeId,
    prev: (Index, Term),
    entries: Vec<LogEntry>,
    commit: Index,
) -> Event {
    Event::Message(Message::AppendEntries(AppendEntries {
        term,
        leader,
        prev_log_index: prev.0,
        prev_log_term: prev.1,
        entries,
        leader_commit: commit,
    }))
}

fn entry(term: Term, index: Index, command: &[u8]) -> LogEntry {
    LogEntry::new(term, index, command.to_vec())
}

fn granted(actions: &[Action]) -> Vec<NodeId> {
    actions
        .iter()
        .filter_map(|a| match a {
            Action::Send {
                to,
                message: Message::RequestVoteReply(r),
            } if r.vote_granted => Some(*to),
            _ => None,
        })
        .collect()
}

fn applied(actions: &[Action]) -> Vec<(Index, Term, Vec<u8>)> {
    actions
        .iter()
        .filter_map(|a| match a {
            Action::Apply {
                index,
                term,
                command,
            } => Some((*index, *term, command.clone())),
            _ => None,
        })
        .collect()
}

// ---- a cluster -----------------------------------------------------------

/// Three nodes whose messages are delivered by hand.
struct Cluster {
    nodes: BTreeMap<NodeId, RaftNode>,
    wire: Vec<(NodeId, Message)>,
    leaders: BTreeMap<Term, NodeId>,
    commands: BTreeMap<Index, (Term, Vec<u8>)>,
    committed: BTreeMap<Index, LogEntry>,
}

impl Cluster {
    fn new(ids: &[NodeId]) -> Self {
        let nodes = ids
            .iter()
            .map(|&id| (id, RaftNode::new(RaftConfig::new(id, ids).with_seed(7 * id))))
            .collect();
        Self {
            nodes,
            wire: Vec::new(),
            leaders: BTreeMap::new(),
            commands: BTreeMap::new(),
            committed: BTreeMap::new(),
        }
    }

    /// Gives `id` the event and holds what follows to the guarantees.
    fn step(&mut self, id: NodeId, event: Event) {
        let node = self.nodes.get_mut(&id).unwrap();
        if let Ok(actions) = node.step(event) {
            for action in actions {
                match action {
                    Action::Send { to, message } => self.wire.push((to, message)),
                    Action::Apply {
                        index,
                        term,
                        command,
                    } => {
                        let known = self
                            .commands
                            .entry(index)
                            .or_insert((term, command.clone()));
                        assert_eq!(*known, (term, command));
                    }
                    _ => {}
                }
            }
        }
        let node = &self.nodes[&id];
        if node.is_leader() {
            assert_eq!(*self.leaders.entry(node.term()).or_insert(id), id);
            for (index, entry) in &self.committed {
                assert!(*index <= node.log().last_index());
                if let Some(held) = node.log().entry(*index) {
                    assert_eq!(held, *entry);
                }
            }
        }
        for index in 1..=node.commit_index() {
            if let Some(held) = node.log().entry(index) {
                assert_eq!(*self.committed.entry(index).or_insert(held.clone()), held);
            }
        }
        self.compare_logs();
    }

    /// Logs that share an index and a term are the same up to there.
    fn compare_logs(&self) {
        for a in self.nodes.values() {
            for b in self.nodes.values() {
                let mut same = false;
                let shorter = a.log().last_index().min(b.log().last_index());
                for index in (1..=shorter).rev() {
                    if let (Some(x), Some(y)) = (a.log().entry(index), b.log().entry(index)) {
                        same = same || x.term == y.term;
                        if same {
                            assert_eq!(x, y);
                        }
                    }
                }
            }
        }
    }

    /// Delivers what is under way to the given nodes and loses the rest, until
    /// nothing is under way.
    fn deliver(&mut self, reached: &[NodeId]) {
        while !self.wire.is_empty() {
            let (to, message) = self.wire.remove(0);
            if reached.contains(&to) {
                self.step(to, Event::Message(message));
            }
        }
    }

    /// Ticks `id` until it stands for election, and has those reached vote.
    fn elect(&mut self, id: NodeId, reached: &[NodeId]) {
        for _ in 0..200 {
            if self.nodes[&id].is_leader() {
                break;
            }
            self.step(id, Event::Tick);
            self.deliver(reached);
        }
        assert!(self.nodes[&id].is_leader());
    }
}

/// A leader is cut off with an entry of its own, another takes over and commits, the
/// first comes back: no term has two leaders, logs match, what was committed stays
/// and every later leader has it, and all apply the same commands.
#[test]
fn a_cluster_keeps_its_guarantees_through_a_change_of_leader() {
    let mut cluster = Cluster::new(&[1, 2, 3]);
    cluster.elect(1, &[1, 2, 3]);
    cluster.step(1, Event::Propose(b"a".to_vec()));
    cluster.deliver(&[1, 2, 3]);
    assert_eq!(cluster.nodes[&1].commit_index(), 1);

    // Node 1 is cut off and takes a proposal that nobody sees.
    cluster.step(1, Event::Propose(b"lost".to_vec()));
    cluster.deliver(&[]);
    for _ in 0..40 {
        cluster.step(3, Event::Tick);
        cluster.deliver(&[]);
    }
    cluster.elect(2, &[2, 3]);
    cluster.step(2, Event::Propose(b"b".to_vec()));
    cluster.deliver(&[2, 3]);
    assert_eq!(cluster.nodes[&2].commit_index(), 2);
    assert!(cluster.nodes[&1].is_leader());

    // Node 1 comes back and follows.
    for _ in 0..10 {
        cluster.step(2, Event::Tick);
        cluster.deliver(&[1, 2, 3]);
    }
    assert_eq!(cluster.nodes[&1].role(), Role::Follower);
    assert_eq!(cluster.nodes[&1].commit_index(), 2);
    assert_eq!(cluster.nodes[&1].log().entry(2).unwrap().command, b"b");
    assert_eq!(cluster.leaders.len(), 2);
    let commands: Vec<_> = cluster.commands.values().map(|c| c.1.clone()).collect();
    assert_eq!(commands, vec![b"a".to_vec(), b"b".to_vec()]);
}

/// The same through changes of the voters, requested of a leader that has committed
/// an entry of its own term.
#[test]
fn a_cluster_keeps_its_guarantees_through_changes_of_the_voters() {
    let mut cluster = Cluster::new(&[1, 2, 3]);
    let joining = RaftConfig::new(4, &[1, 2, 3]).with_election_timeout(60, 80);
    let _ = cluster.nodes.insert(4, RaftNode::new(joining));
    let all = [1, 2, 3, 4];
    cluster.elect(1, &all);
    cluster.step(1, Event::Propose(b"a".to_vec()));
    cluster.deliver(&all);
    cluster.step(1, Event::AddServer(4));
    cluster.deliver(&all);
    assert_eq!(cluster.nodes[&4].members(), &[1, 2, 3, 4]);
    cluster.step(1, Event::RemoveServer(2));
    cluster.deliver(&all);
    cluster.step(1, Event::Propose(b"b".to_vec()));
    cluster.deliver(&all);
    assert_eq!(cluster.nodes[&4].members(), &[1, 3, 4]);
    assert_eq!(cluster.nodes[&1].commit_index(), 4);

    // The leader removes itself, sees the change through and steps down.
    cluster.step(1, Event::RemoveServer(1));
    assert!(cluster.nodes[&1].is_leader());
    cluster.deliver(&all);
    assert!(!cluster.nodes[&1].is_leader());
    assert_eq!(cluster.nodes[&1].commit_index(), 5);
    for _ in 0..60 {
        cluster.step(4, Event::Tick);
        cluster.deliver(&[]);
    }
    cluster.elect(3, &[3, 4]);
    cluster.step(3, Event::Propose(b"c".to_vec()));
    cluster.deliver(&[3, 4]);
    assert_eq!(cluster.nodes[&3].commit_index(), 6);
    let commands: Vec<_> = cluster.commands.values().map(|c| c.1.clone()).collect();
    assert_eq!(commands, vec![b"a".to_vec(), b"b".to_vec(), b"c".to_vec()]);
}

/// The first change of the voters of a new cluster may come before anything has been
/// committed, even if the leader then loses its place to another.
#[test]
fn a_cluster_keeps_its_guarantees_through_a_change_right_after_its_first_election() {
    let mut cluster = Cluster::new(&[1, 2, 3]);
    let joining = RaftConfig::new(4, &[1, 2, 3]).with_election_timeout(60, 80);
    let _ = cluster.nodes.insert(4, RaftNode::new(joining));
    let all = [1, 2, 3, 4];
    cluster.elect(1, &all);
    assert_eq!(cluster.nodes[&1].commit_index(), 0);
    cluster.step(1, Event::AddServer(4));
    assert_eq!(cluster.nodes[&1].members(), &[1, 2, 3, 4]);

    // Only the node that joins hears of it before node 2 takes over.
    cluster.deliver(&[4]);
    for _ in 0..40 {
        cluster.step(3, Event::Tick);
        cluster.deliver(&[]);
    }
    cluster.elect(2, &[2, 3]);
    cluster.step(2, Event::Propose(b"b".to_vec()));
    cluster.deliver(&[2, 3]);
    assert_eq!(cluster.nodes[&2].commit_index(), 1);

    // Node 1 comes back, and with it the voters are the first three again.
    for _ in 0..10 {
        cluster.step(2, Event::Tick);
        cluster.deliver(&all);
    }
    assert_eq!(cluster.nodes[&1].role(), Role::Follower);
    assert_eq!(cluster.nodes[&1].members(), &[1, 2, 3]);
    cluster.step(2, Event::AddServer(4));
    cluster.deliver(&all);
    cluster.step(2, Event::Propose(b"c".to_vec()));
    cluster.deliver(&all);
    assert_eq!(cluster.nodes[&4].members(), &[1, 2, 3, 4]);
    assert_eq!(cluster.nodes[&2].commit_index(), 3);
    let commands: Vec<_> = cluster.commands.values().map(|c| c.1.clone()).collect();
    assert_eq!(commands, vec![b"b".to_vec(), b"c".to_vec()]);
}

// ---- a node --------------------------------------------------------------

/// A proposal waits for the other voters, and a reply that makes a majority commits all
/// that the majority holds at once; a sole voter commits by itself.
#[test]
fn a_leader_has_committed_all_it_may() {
    let mut cluster = Cluster::new(&[1, 2, 3]);
    cluster.elect(1, &[1, 2, 3]);
    let mut node = cluster.nodes.remove(&1).unwrap();
    for command in [b"a", b"b"] {
        let actions = node.step(Event::Propose(command.to_vec())).unwrap();
        let sends = actions.iter().filter(|a| matches!(a, Action::Send { .. }));
        assert_eq!(sends.count(), 2);
        assert_eq!(actions.len(), 2);
        assert_eq!(node.commit_index(), 0);
        assert_eq!(node.last_applied(), 0);
        assert!(node.is_leader());
    }
    let reply = Event::Message(Message::AppendEntriesReply(AppendEntriesReply {
        term: node.term(),
        success: true,
        from: 3,
        match_index: 2,
        conflict_index: 0,
        conflict_term: 0,
    }));
    let actions = node.step(reply).unwrap();
    assert_eq!(node.commit_index(), 2);
    assert_eq!(applied(&actions).len(), 2);

    let mut alone = RaftNode::new(RaftConfig::new(1, &[1]));
    while !alone.is_leader() {
        let _ = alone.step(Event::Tick).unwrap();
    }
    let actions = alone.step(Event::Propose(b"x".to_vec())).unwrap();
    assert_eq!(alone.commit_index(), 1);
    assert_eq!(applied(&actions), vec![(1, 1, b"x".to_vec())]);
}

/// Terms never fall, a vote is kept for its term, and it is on record when it is
/// announced.
#[test]
fn terms_and_votes_are_kept() {
    let mut node = RaftNode::new(RaftConfig::new(1, &[2, 3]));
    let first = node.step(vote_request(5, 2, 0, 0)).unwrap();
    assert_eq!(granted(&first), vec![2]);
    let vote = HardState {
        term: 5,
        voted_for: Some(2),
    };
    assert_eq!(node.log().hard_state(), vote);
    assert!(granted(&node.step(vote_request(5, 3, 9, 9)).unwrap()).is_empty());
    assert!(granted(&node.step(vote_request(4, 3, 9, 9)).unwrap()).is_empty());
    assert_eq!(node.log().hard_state(), vote);
    assert_eq!(node.term(), 5);
    // The vote may be asked for again by the same candidate, and is free in the
    // next term.
    assert_eq!(granted(&node.step(vote_request(5, 2, 0, 0)).unwrap()), vec![2]);
    assert_eq!(granted(&node.step(vote_request(6, 3, 0, 0)).unwrap()), vec![3]);
    assert_eq!(node.term(), 6);
}

/// Commands are applied once, in order, without the configurations among them.
#[test]
fn commands_are_applied_once_and_in_order() {
    let mut node = RaftNode::new(RaftConfig::new(1, &[2, 3]));
    let batch = vec![
        entry(1, 1, b"a"),
        LogEntry::config(1, 2, &[1, 2, 3]),
        entry(1, 3, b"b"),
        entry(1, 4, b"c"),
    ];
    let first = node.step(append(1, 2, (0, 0), batch, 3)).unwrap();
    assert_eq!(
        applied(&first),
        vec![(1, 1, b"a".to_vec()), (3, 1, b"b".to_vec())]
    );
    // The same again hands out nothing; a later commit index only the rest.
    assert!(applied(&node.step(append(1, 2, (4, 1), vec![], 3)).unwrap()).is_empty());
    let rest = node.step(append(1, 2, (4, 1), vec![], 4)).unwrap();
    assert_eq!(applied(&rest), vec![(4, 1, b"c".to_vec())]);
    assert_eq!(node.last_applied(), 4);
    // An earlier commit index takes nothing back.
    let _ = node.step(append(1, 2, (4, 1), vec![], 2)).unwrap();
    assert_eq!(node.commit_index(), 4);
    assert_eq!(node.last_applied(), 4);
}

/// A leader only appends.
#[test]
fn a_leader_only_appends() {
    let mut node = RaftNode::new(RaftConfig::single(1));
    while !node.is_leader() {
        let _ = node.step(Event::Tick).unwrap();
    }
    let mut before: Vec<LogEntry> = Vec::new();
    for i in 0..20u8 {
        let _ = node.step(Event::Propose(vec![i])).unwrap();
        let now = node.log().entries(1, u64::MAX);
        assert_eq!(now.len(), before.len() + 1);
        assert_eq!(now[..before.len()], before[..]);
        assert_eq!(now.last().unwrap().kind, EntryKind::Normal);
        before = now;
    }
}

/// A reply of another term is ignored, except that a later term is entered.
#[test]
fn replies_of_other_terms_are_ignored() {
    let replies = |term: Term| {
        vec![
            Message::RequestVoteReply(RequestVoteReply {
                term,
                vote_granted: true,
                from: 2,
            }),
            Message::AppendEntriesReply(AppendEntriesReply {
                term,
                success: true,
                from: 2,
                match_index: 1,
                conflict_index: 0,
                conflict_term: 0,
            }),
            Message::InstallSnapshotReply(InstallSnapshotReply {
                term,
                from: 2,
                last_index: 1,
            }),
        ]
    };
    for (i, _) in replies(0).iter().enumerate() {
        let mut node = RaftNode::new(RaftConfig::new(1, &[2, 3]));
        while node.role() != Role::Candidate {
            let _ = node.step(Event::Tick).unwrap();
        }
        assert_eq!(node.term(), 1);
        let stale = replies(0).remove(i);
        assert!(node.step(Event::Message(stale)).unwrap().is_empty());
        assert_eq!((node.role(), node.term()), (Role::Candidate, 1));
        let later = replies(9).remove(i);
        assert!(node.step(Event::Message(later)).unwrap().is_empty());
        assert_eq!((node.role(), node.term()), (Role::Follower, 9));
        assert_eq!(node.log().hard_state().voted_for, None);
    }
}

/// A probe is granted as a vote would be, and changes nothing; its answer is taken
/// without any effect.
#[test]
fn probes_are_granted_as_votes_would_be() {
    let probe = |term, index| {
        Event::Message(Message::PreVote(PreVote {
            term,
            candidate: 2,
            last_log_index: index,
            last_log_term: 1,
        }))
    };
    let would = |actions: Vec<Action>| match &actions[0] {
        Action::Send {
            to: 2,
            message: Message::PreVoteReply(r),
        } => r.vote_granted,
        _ => panic!("no answer"),
    };
    let mut log = MemoryLog::new();
    log.append(&[entry(1, 1, b"a"), entry(1, 2, b"b")]).unwrap();
    log.set_hard_state(HardState {
        term: 3,
        voted_for: None,
    })
    .unwrap();
    let mut node = RaftNode::with_log(RaftConfig::new(1, &[2, 3]), log);
    assert!(would(node.step(probe(4, 2)).unwrap()));
    assert!(would(node.step(probe(3, 5)).unwrap()));
    assert!(!would(node.step(probe(2, 2)).unwrap())); // behind in its term
    assert!(!would(node.step(probe(4, 1)).unwrap())); // behind in its log
    let answer = Message::PreVoteReply(PreVoteReply {
        term: 50,
        vote_granted: true,
        from: 2,
    });
    assert!(node.step(Event::Message(answer)).unwrap().is_empty());
    assert_eq!((node.role(), node.term()), (Role::Follower, 3));
    // With an active leader none is granted.
    let _ = node.step(append(3, 3, (2, 1), vec![], 0)).unwrap();
    assert!(!would(node.step(probe(4, 2)).unwrap()));
}

/// Who takes a request, and what the others answer.
#[test]
fn requests_are_taken_by_a_leader_that_is_not_handing_over() {
    let mut node = RaftNode::new(RaftConfig::new(1, &[2]));
    let refused = |r: Result<Vec<Action>, Error>| match r {
        Err(Error::NotLeader { leader }) => leader,
        _ => panic!("not refused"),
    };
    assert_eq!(refused(node.step(Event::Propose(vec![1]))), None);
    let _ = node.step(append(1, 2, (0, 0), vec![], 0)).unwrap();
    assert_eq!(refused(node.step(Event::AddServer(3))), Some(2));
    assert_eq!(refused(node.step(Event::TransferLeadership(2))), Some(2));
    while node.role() != Role::Candidate {
        let _ = node.step(Event::Tick).unwrap();
    }
    let vote = Message::RequestVoteReply(RequestVoteReply {
        term: node.term(),
        vote_granted: true,
        from: 2,
    });
    let _ = node.step(Event::Message(vote)).unwrap();
    assert!(node.is_leader());
    let _ = node.step(Event::AddServer(3)).unwrap();
    assert!(matches!(
        node.step(Event::RemoveServer(3)),
        Err(Error::ConfigInProgress)
    ));
    let _ = node.step(Event::TransferLeadership(2)).unwrap();
    assert_eq!(refused(node.step(Event::Propose(vec![1]))), Some(2));
}

/// A node comes back with its term, its vote and its log, with what its snapshot
/// covers applied.
#[test]
fn a_restart_resumes() {
    let mut log = MemoryLog::new();
    log.append(&[entry(1, 1, b"a"), entry(2, 2, b"b"), entry(2, 3, b"c")])
        .unwrap();
    log.apply_snapshot(&Snapshot::with_config(2, 2, vec![1, 2], b"s".to_vec()))
        .unwrap();
    log.set_hard_state(HardState {
        term: 6,
        voted_for: Some(2),
    })
    .unwrap();
    let mut node = RaftNode::with_log(RaftConfig::new(1, &[2, 3]), log);
    assert_eq!((node.role(), node.term()), (Role::Follower, 6));
    assert_eq!((node.commit_index(), node.last_applied()), (2, 2));
    assert_eq!(node.log().last_index(), 3);
    assert_eq!(node.members(), &[1, 2]);
    assert!(granted(&node.step(vote_request(6, 3, 9, 9)).unwrap()).is_empty());
}

/// A log that keeps count of what is written, and of what is not yet flushed. It
/// fails once it has made as many calls as it is good for.
struct Buffered {
    log: MemoryLog,
    written: usize,
    unflushed: usize,
    calls: usize,
    good_for: usize,
}

impl Buffered {
    fn new() -> Self {
        Self {
            log: MemoryLog::new(),
            written: 0,
            unflushed: 0,
            calls: 0,
            good_for: usize::MAX,
        }
    }

    fn call(&mut self) -> Result<(), Error> {
        self.calls += 1;
        if self.calls > self.good_for {
            return Err(Error::storage("disk", &format!("call {}", self.calls)));
        }
        Ok(())
    }

    fn note(&mut self) -> Result<(), Error> {
        self.call()?;
        self.written += 1;
        self.unflushed += 1;
        Ok(())
    }
}

impl RaftLog for Buffered {
    fn last_index(&self) -> Index {
        self.log.last_index()
    }

    fn last_term(&self) -> Term {
        self.log.last_term()
    }

    fn term_at(&self, index: Index) -> Option<Term> {
        self.log.term_at(index)
    }

    fn entry(&self, index: Index) -> Option<LogEntry> {
        self.log.entry(index)
    }

    fn append(&mut self, entries: &[LogEntry]) -> Result<(), Error> {
        self.note()?;
        self.log.append(entries)
    }

    fn truncate(&mut self, from: Index) -> Result<(), Error> {
        self.note()?;
        self.log.truncate(from)
    }

    fn hard_state(&self) -> HardState {
        self.log.hard_state()
    }

    fn set_hard_state(&mut self, state: HardState) -> Result<(), Error> {
        self.note()?;
        self.log.set_hard_state(state)
    }

    fn sync(&mut self) -> Result<(), Error> {
        self.call()?;
        self.unflushed = 0;
        Ok(())
    }

    fn snapshot_index(&self) -> Index {
        self.log.snapshot_index()
    }

    fn snapshot(&self) -> Option<Snapshot> {
        self.log.snapshot()
    }

    fn apply_snapshot(&mut self, snapshot: &Snapshot) -> Result<(), Error> {
        self.note()?;
        self.log.apply_snapshot(snapshot)
    }
}

/// When a step hands out its actions, everything in the log is durable.
#[test]
fn everything_is_durable_before_anything_is_handed_out() {
    let mut node = RaftNode::with_log(RaftConfig::new(1, &[2, 3]), Buffered::new());
    let install = Message::InstallSnapshot(raft_io::InstallSnapshot {
        term: 4,
        leader: 2,
        snapshot: Snapshot::with_config(5, 3, vec![1, 2, 3], b"s".to_vec()),
    });
    let events = vec![
        vote_request(2, 2, 0, 0),
        append(2, 2, (0, 0), vec![entry(1, 1, b"a"), entry(1, 2, b"b")], 1),
        append(3, 3, (1, 1), vec![entry(3, 2, b"c"), entry(3, 3, b"d")], 3),
        Event::Snapshot {
            index: 2,
            data: b"state".to_vec(),
        },
        Event::Message(install),
        vote_request(5, 3, 9, 9),
    ];
    for event in events {
        let _ = node.step(event).unwrap();
        assert_eq!(node.log().unflushed, 0);
    }
    for _ in 0..100 {
        let _ = node.step(Event::Tick).unwrap();
        assert_eq!(node.log().unflushed, 0);
    }
    assert_eq!(node.role(), Role::Candidate);
    let vote = Message::RequestVoteReply(RequestVoteReply {
        term: node.term(),
        vote_granted: true,
        from: 3,
    });
    let _ = node.step(Event::Message(vote)).unwrap();
    for event in [
        Event::Propose(b"x".to_vec()),
        Event::AddServer(4),
        Event::Tick,
    ] {
        let _ = node.step(event).unwrap();
        assert_eq!(node.log().unflushed, 0);
    }
    assert_eq!(node.log().last_index(), 7);
}

/// What changes nothing persistent writes nothing.
#[test]
fn nothing_is_written_without_need() {
    let mut node = RaftNode::with_log(RaftConfig::new(1, &[2, 3]), Buffered::new());
    let _ = node
        .step(append(2, 2, (0, 0), vec![entry(1, 1, b"a")], 0))
        .unwrap();
    let written = node.log().written;
    assert_eq!(written, 2);
    let events = vec![
        append(2, 2, (1, 1), vec![], 1),
        append(2, 2, (0, 0), vec![entry(1, 1, b"a")], 1),
        append(1, 3, (0, 0), vec![entry(1, 1, b"b")], 0),
        append(2, 2, (5, 2), vec![entry(2, 6, b"x")], 0),
        vote_request(2, 3, 0, 0),
        vote_request(9, 3, 9, 9),
        Event::Tick,
        Event::Snapshot {
            index: 7,
            data: vec![],
        },
    ];
    for event in events {
        let _ = node.step(event).unwrap();
        assert_eq!(node.log().written, written);
    }
    assert!(node.step(Event::Propose(vec![])).is_err());
    assert_eq!(node.log().written, written);
}

/// A step that a failing log stops hands on the very error that the log gave; one
/// that writes nothing does not fail.
#[test]
fn the_error_of_the_log_is_handed_on() {
    let text = |r: Result<Vec<Action>, Error>| r.unwrap_err().to_string();
    for good_for in 0..4 {
        let mut log = Buffered::new();
        log.good_for = good_for;
        let mut node = RaftNode::with_log(RaftConfig::new(1, &[2, 3]), log);
        assert!(node.step(Event::Tick).unwrap().is_empty());
        // A term and its flush, then entries and theirs.
        let failed = node.step(append(2, 2, (0, 0), vec![entry(1, 1, b"a")], 0));
        let expected = Error::storage("disk", &format!("call {}", good_for + 1));
        assert_eq!(text(failed), expected.to_string());
    }
    let mut log = Buffered::new();
    log.good_for = 4;
    let mut node = RaftNode::with_log(RaftConfig::new(1, &[2, 3]), log);
    let _ = node
        .step(append(2, 2, (0, 0), vec![entry(1, 1, b"a")], 0))
        .unwrap();
    // The log is good for nothing more, and none of these needs it.
    for event in [
        append(2, 2, (1, 1), vec![], 1),
        append(2, 2, (0, 0), vec![entry(1, 1, b"a")], 1),
        append(1, 3, (0, 0), vec![entry(1, 1, b"b")], 0),
        vote_request(9, 3, 9, 9),
        Event::Tick,
    ] {
        let _ = node.step(event).unwrap();
    }
    assert!(matches!(
        node.step(Event::Propose(vec![])),
        Err(Error::NotLeader { leader: Some(2) })
    ));
    // A vote does: it fails where the log does.
    let forced = Event::Message(Message::RequestVote(RequestVote {
        term: 2,
        candidate: 3,
        last_log_index: 9,
        last_log_term: 9,
        force: true,
    }));
    assert_eq!(
        text(node.step(forced)),
        Error::storage("disk", "call 5").to_string()
    );
}

/// A vote repeated is written again before it is announced again.
#[test]
fn a_repeated_vote_is_durable_too() {
    let mut node = RaftNode::with_log(RaftConfig::new(1, &[2, 3]), Buffered::new());
    assert_eq!(granted(&node.step(vote_request(1, 2, 0, 0)).unwrap()), [2]);
    node.step(Event::Tick).unwrap();
    let written = node.log().written;
    assert_eq!(granted(&node.step(vote_request(1, 2, 0, 0)).unwrap()), [2]);
    assert_eq!(node.log().written, written + 1);
    assert_eq!(node.log().unflushed, 0);
}

/// Nothing but ticks: the election comes on a tick within the bounds, and the ticks
/// before it hand out nothing and change nothing that can be seen.
#[test]
fn an_election_comes_when_the_timer_runs_out() {
    for seed in 0..50 {
        let config = RaftConfig::new(1, &[2, 3])
            .with_election_timeout(4, 9)
            .with_seed(seed);
        let mut node = RaftNode::new(config);
        for round in 1..4 {
            let before = (node.role(), node.term(), node.leader(), node.commit_index());
            let mut ticks = 1;
            while node.step(Event::Tick).unwrap().is_empty() {
                let now = (node.role(), node.term(), node.leader(), node.commit_index());
                assert_eq!(now, before);
                ticks += 1;
            }
            assert!((4..=9).contains(&ticks));
            assert_eq!((node.role(), node.term()), (Role::Candidate, round));
            assert_eq!(node.leader(), None);
        }
        // A vote, an append and a start each begin the count anew.
        assert_eq!(granted(&node.step(vote_request(9, 2, 0, 0)).unwrap()), [2]);
        for _ in 0..3 {
            assert!(node.step(Event::Tick).unwrap().is_empty());
        }
        let _ = node.step(append(9, 2, (0, 0), vec![], 0)).unwrap();
        for _ in 0..3 {
            assert!(node.step(Event::Tick).unwrap().is_empty());
        }
        assert_eq!((node.role(), node.leader()), (Role::Follower, Some(2)));
    }
}

/// An append of the present term names the leader, a vote leaves it known, and one
/// of an earlier term changes neither it nor the role.
#[test]
fn the_leader_is_the_one_that_appends() {
    let mut node = RaftNode::new(RaftConfig::new(1, &[2, 3]));
    let _ = node.step(append(3, 2, (7, 3), vec![], 0)).unwrap();
    assert_eq!((node.role(), node.leader()), (Role::Follower, Some(2)));
    let forced = Event::Message(Message::RequestVote(RequestVote {
        term: 3,
        candidate: 3,
        last_log_index: 0,
        last_log_term: 0,
        force: true,
    }));
    assert_eq!(granted(&node.step(forced).unwrap()), [3]);
    assert_eq!(node.leader(), Some(2));
    // The vote does not make the leader any more active than it was.
    for _ in 0..8 {
        assert!(node.step(Event::Tick).unwrap().is_empty());
    }
    assert!(granted(&node.step(vote_request(3, 3, 0, 0)).unwrap()).is_empty());
    let _ = node.step(append(2, 3, (0, 0), vec![], 0)).unwrap();
    assert_eq!((node.role(), node.leader()), (Role::Follower, Some(2)));
    assert_eq!(node.term(), 3);
}

/// However often a node restarts over its log, the votes it grants in one term go
/// to one node, and as a candidate it grants none to another.
#[test]
fn one_vote_per_term_through_restarts() {
    let mut log = MemoryLog::new();
    let mut votes: BTreeMap<Term, Vec<NodeId>> = BTreeMap::new();
    for round in 0..12 {
        let config = RaftConfig::new(1, &[2, 3, 4]).with_seed(round);
        let mut node = RaftNode::with_log(config, log);
        for _ in 0..(round * 5) {
            let _ = node.step(Event::Tick).unwrap();
            if node.role() == Role::Candidate {
                votes.entry(node.term()).or_default().push(1);
            }
        }
        for candidate in [2, 3, 4] {
            let term = 1 + round / 3 + (candidate + round) % 2;
            let out = node.step(vote_request(term, candidate, 0, 0)).unwrap();
            for to in granted(&out) {
                votes.entry(node.term()).or_default().push(to);
            }
        }
        log = node.log().clone();
    }
    assert!(votes.len() > 2);
    assert!(votes.values().any(|to| to.len() > 1));
    for to in votes.values() {
        assert!(to.iter().all(|n| *n == to[0]));
    }
}

/// After every step all that is committed is applied, and over a run every command
/// is applied once, in order, as the log has it.
#[test]
fn a_run_applies_every_command_once() {
    let mut node = RaftNode::new(RaftConfig::new(1, &[2, 3]));
    let batch = |from: Index, to: Index| {
        (from..=to)
            .map(|i| entry(1, i, format!("c{i}").as_bytes()))
            .collect::<Vec<_>>()
    };
    let mut seen = Vec::new();
    for event in [
        append(1, 2, (0, 0), batch(1, 3), 1),
        append(1, 2, (0, 0), batch(1, 3), 2),
        append(1, 2, (3, 1), batch(4, 4), 0),
        append(1, 2, (2, 1), batch(3, 6), 9),
        append(1, 2, (0, 0), batch(1, 2), 9),
        append(1, 2, (6, 1), batch(7, 9), 8),
        Event::Snapshot {
            index: 5,
            data: vec![],
        },
        append(1, 2, (9, 1), vec![], 9),
    ] {
        seen.extend(applied(&node.step(event).unwrap()));
        assert_eq!(node.last_applied(), node.commit_index());
    }
    let expected: Vec<(Index, Term, Vec<u8>)> = (1..=9)
        .map(|i| (i, 1, format!("c{i}").into_bytes()))
        .collect();
    assert_eq!(seen, expected);
}
