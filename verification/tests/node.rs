//! Node behaviour, one event at a time.

use raft_io::{
    Action, AppendEntries, AppendEntriesReply, EntryKind, Error, Event, HardState, InstallSnapshot,
    InstallSnapshotReply, LogEntry, MemoryLog, Message, NodeId, PreVote, RaftConfig, RaftLog,
    RaftNode, RequestVote, RequestVoteReply, Role, Snapshot, TimeoutNow,
};

fn drive_to_leader(node: &mut RaftNode) {
    for _ in 0..1_000 {
        if node.is_leader() {
            return;
        }
        let _ = node.step(Event::Tick).expect("tick");
    }
    panic!("node never became leader");
}

#[test]
fn test_single_node_elects_itself() {
    let mut node = RaftNode::new(RaftConfig::single(1));
    drive_to_leader(&mut node);
    assert_eq!(node.role(), Role::Leader);
    assert_eq!(node.leader(), Some(1));
    assert_eq!(node.term(), 1);
}

#[test]
fn test_single_node_commits_proposal() {
    let mut node = RaftNode::new(RaftConfig::single(1));
    drive_to_leader(&mut node);
    let actions = node.step(Event::Propose(b"a".to_vec())).unwrap();
    assert_eq!(node.commit_index(), 1);
    assert_eq!(node.last_applied(), 1);
    let applied: Vec<_> = actions
        .iter()
        .filter(|a| matches!(a, Action::Apply { .. }))
        .collect();
    assert_eq!(applied.len(), 1);
}

#[test]
fn test_propose_to_follower_is_rejected() {
    let mut node = RaftNode::new(RaftConfig::new(1, &[2, 3]));
    let err = node.step(Event::Propose(b"a".to_vec())).unwrap_err();
    assert!(matches!(err, Error::NotLeader { .. }));
}

#[test]
fn test_candidate_requests_votes_from_peers() {
    let mut node = RaftNode::new(RaftConfig::new(1, &[2, 3]));
    let mut sends = Vec::new();
    for _ in 0..1_000 {
        let actions = node.step(Event::Tick).unwrap();
        if !actions.is_empty() {
            sends = actions;
            break;
        }
    }
    assert_eq!(node.role(), Role::Candidate);
    let targets: Vec<NodeId> = sends
        .iter()
        .filter_map(|a| match a {
            Action::Send {
                to,
                message: Message::RequestVote(_),
            } => Some(*to),
            _ => None,
        })
        .collect();
    assert_eq!(targets.len(), 2);
    assert!(targets.contains(&2) && targets.contains(&3));
}

#[test]
fn test_node_grants_one_vote_then_refuses_another_candidate() {
    let mut node = RaftNode::new(RaftConfig::new(1, &[2, 3]));
    let grant = |node: &mut RaftNode, candidate: NodeId| -> bool {
        let actions = node
            .step(Event::Message(Message::RequestVote(RequestVote {
                term: 5,
                candidate,
                last_log_index: 0,
                last_log_term: 0,
                force: false,
            })))
            .unwrap();
        actions.iter().any(|a| {
            matches!(
                a,
                Action::Send { message: Message::RequestVoteReply(r), .. } if r.vote_granted
            )
        })
    };
    assert!(grant(&mut node, 2));
    assert!(!grant(&mut node, 3)); // already voted for 2 in term 5
}

#[test]
fn test_higher_term_message_steps_node_down() {
    let mut node = RaftNode::new(RaftConfig::single(1));
    drive_to_leader(&mut node);
    let leader_term = node.term();
    let _ = node
        .step(Event::Message(Message::AppendEntries(AppendEntries {
            term: leader_term + 5,
            leader: 9,
            prev_log_index: 0,
            prev_log_term: 0,
            entries: Vec::new(),
            leader_commit: 0,
        })))
        .unwrap();
    assert_eq!(node.role(), Role::Follower);
    assert_eq!(node.term(), leader_term + 5);
    assert_eq!(node.leader(), Some(9));
}

#[test]
fn test_stale_term_request_vote_is_refused() {
    let mut node = RaftNode::new(RaftConfig::single(1));
    drive_to_leader(&mut node); // now in term 1+
    let term = node.term();
    let actions = node
        .step(Event::Message(Message::RequestVote(RequestVote {
            term: term - 1,
            candidate: 2,
            last_log_index: 99,
            last_log_term: 99,
            force: false,
        })))
        .unwrap();
    let granted = actions.iter().any(|a| {
        matches!(
            a,
            Action::Send { message: Message::RequestVoteReply(r), .. } if r.vote_granted
        )
    });
    assert!(!granted);
}

#[test]
fn test_heartbeat_resets_follower_election_timer() {
    let mut node = RaftNode::new(RaftConfig::new(1, &[2, 3]).with_election_timeout(5, 5));
    // Tick a few times, then a heartbeat should keep it a follower.
    let _ = node.step(Event::Tick).unwrap();
    let _ = node.step(Event::Tick).unwrap();
    let _ = node
        .step(Event::Message(Message::AppendEntries(AppendEntries {
            term: 1,
            leader: 2,
            prev_log_index: 0,
            prev_log_term: 0,
            entries: Vec::new(),
            leader_commit: 0,
        })))
        .unwrap();
    assert_eq!(node.role(), Role::Follower);
    assert_eq!(node.leader(), Some(2));
    // It needs the full timeout again from zero; a single tick must not trip it.
    let _ = node.step(Event::Tick).unwrap();
    assert_eq!(node.role(), Role::Follower);
}

/// Elects node 1 leader of a `{1,2,3}` cluster by triggering its election
/// and feeding it a granting vote from node 2 (self + 1 = quorum of 2).
fn elect_multi_node_leader() -> RaftNode {
    let mut node = RaftNode::new(RaftConfig::new(1, &[2, 3]).with_heartbeat_interval(2));
    for _ in 0..1_000 {
        let actions = node.step(Event::Tick).expect("tick");
        if !actions.is_empty() {
            break; // became a candidate and sent RequestVotes
        }
    }
    assert_eq!(node.role(), Role::Candidate);
    let term = node.term();
    let _ = node
        .step(Event::Message(Message::RequestVoteReply(
            RequestVoteReply {
                term,
                vote_granted: true,
                from: 2,
            },
        )))
        .expect("vote reply");
    assert_eq!(node.role(), Role::Leader);
    node
}

#[test]
fn test_vote_replies_elect_a_multi_node_leader() {
    let node = elect_multi_node_leader();
    assert_eq!(node.leader(), Some(1));
}

#[test]
fn test_leader_emits_heartbeats_on_interval() {
    let mut node = elect_multi_node_leader();
    // First post-election tick: no heartbeat yet (interval 2).
    let first = node.step(Event::Tick).unwrap();
    assert!(first.is_empty());
    let second = node.step(Event::Tick).unwrap();
    let heartbeats = second
        .iter()
        .filter(|a| {
            matches!(
                a,
                Action::Send {
                    message: Message::AppendEntries(_),
                    ..
                }
            )
        })
        .count();
    assert_eq!(heartbeats, 2);
}

#[test]
fn test_persisted_hard_state_is_restored() {
    let mut log = MemoryLog::new();
    log.set_hard_state(HardState {
        term: 7,
        voted_for: Some(3),
    })
    .unwrap();
    let node = RaftNode::with_log(RaftConfig::single(1), log);
    assert_eq!(node.term(), 7);
}

#[test]
fn test_vote_is_persisted_to_log() {
    let mut node = RaftNode::new(RaftConfig::new(1, &[2, 3]));
    let _ = node
        .step(Event::Message(Message::RequestVote(RequestVote {
            term: 4,
            candidate: 2,
            last_log_index: 0,
            last_log_term: 0,
            force: false,
        })))
        .unwrap();
    assert_eq!(
        node.log().hard_state(),
        HardState {
            term: 4,
            voted_for: Some(2)
        }
    );
}

// ---- further behaviour ----------------------------------------------------

fn append(term: u64, prev: (u64, u64), entries: Vec<LogEntry>, commit: u64) -> Event {
    Event::Message(Message::AppendEntries(AppendEntries {
        term,
        leader: 2,
        prev_log_index: prev.0,
        prev_log_term: prev.1,
        entries,
        leader_commit: commit,
    }))
}

fn append_reply(actions: &[Action]) -> AppendEntriesReply {
    for action in actions {
        if let Action::Send {
            message: Message::AppendEntriesReply(r),
            ..
        } = action
        {
            return r.clone();
        }
    }
    panic!("no reply among {actions:?}");
}

fn applied(actions: &[Action]) -> Vec<u64> {
    actions
        .iter()
        .filter_map(|a| match a {
            Action::Apply { index, .. } => Some(*index),
            _ => None,
        })
        .collect()
}

fn cmd(term: u64, index: u64) -> LogEntry {
    LogEntry::new(term, index, vec![index as u8])
}

fn acknowledge(node: &mut RaftNode, from: NodeId, match_index: u64) -> Vec<Action> {
    let term = node.term();
    node.step(Event::Message(Message::AppendEntriesReply(
        AppendEntriesReply {
            term,
            success: true,
            from,
            match_index,
            conflict_index: 0,
            conflict_term: 0,
        },
    )))
    .unwrap()
}

fn appends_to(actions: &[Action], peer: NodeId) -> Vec<AppendEntries> {
    actions
        .iter()
        .filter_map(|a| match a {
            Action::Send {
                to,
                message: Message::AppendEntries(m),
            } if *to == peer => Some(m.clone()),
            _ => None,
        })
        .collect()
}

#[test]
fn follower_stores_entries_and_follows_the_commit_index() {
    let mut node = RaftNode::new(RaftConfig::new(1, &[2, 3]));
    let out = node
        .step(append(1, (0, 0), vec![cmd(1, 1), cmd(1, 2)], 1))
        .unwrap();
    assert_eq!(applied(&out), vec![1]);
    let r = append_reply(&out);
    assert!(r.success);
    assert_eq!((r.match_index, r.conflict_index, r.conflict_term), (2, 0, 0));
    assert_eq!(node.commit_index(), 1);

    // The rest is applied once, even when the heartbeat repeats.
    assert_eq!(applied(&node.step(append(1, (2, 1), vec![], 2)).unwrap()), vec![2]);
    assert_eq!(
        applied(&node.step(append(1, (2, 1), vec![], 2)).unwrap()),
        Vec::<u64>::new()
    );
}

#[test]
fn commit_index_never_runs_past_what_is_known_to_agree() {
    let mut node = RaftNode::new(RaftConfig::new(1, &[2, 3]));
    let _ = node
        .step(append(1, (0, 0), vec![cmd(1, 1), cmd(1, 2), cmd(1, 3)], 0))
        .unwrap();
    // A later leader has committed 3 entries, but this message vouches for one.
    let out = node.step(append(2, (1, 1), vec![], 3)).unwrap();
    assert_eq!(applied(&out), vec![1]);
    assert_eq!(node.commit_index(), 1);
}

#[test]
fn conflicting_tail_is_replaced_and_duplicates_are_not() {
    let mut node = RaftNode::new(RaftConfig::new(1, &[2, 3]));
    let _ = node
        .step(append(1, (0, 0), vec![cmd(1, 1), cmd(1, 2), cmd(1, 3)], 0))
        .unwrap();
    // The same batch again, shorter: nothing is lost.
    let _ = node.step(append(1, (0, 0), vec![cmd(1, 1)], 0)).unwrap();
    assert_eq!(node.log().last_index(), 3);
    // A conflict at index 2 replaces the tail.
    let out = node.step(append(3, (1, 1), vec![cmd(3, 2)], 0)).unwrap();
    assert_eq!(append_reply(&out).match_index, 2);
    assert_eq!(node.log().last_index(), 2);
    assert_eq!(node.log().term_at(2), Some(3));
}

#[test]
fn rejection_carries_the_conflict_hint() {
    let mut node = RaftNode::new(RaftConfig::new(1, &[2, 3]));
    let _ = node
        .step(append(
            4,
            (0, 0),
            vec![cmd(1, 1), cmd(2, 2), cmd(2, 3), cmd(2, 4)],
            0,
        ))
        .unwrap();
    // Too short: probe at the end.
    let r = append_reply(&node.step(append(5, (9, 5), vec![], 0)).unwrap());
    assert!(!r.success);
    assert_eq!((r.match_index, r.conflict_index, r.conflict_term), (0, 5, 0));
    // A different term at the previous index: the whole run is skipped.
    let r = append_reply(&node.step(append(5, (4, 3), vec![], 0)).unwrap());
    assert_eq!((r.success, r.conflict_index, r.conflict_term), (false, 2, 2));
    // A stale leader is told the term.
    let r = append_reply(&node.step(append(1, (0, 0), vec![], 0)).unwrap());
    assert_eq!((r.term, r.success), (5, false));
}

#[test]
fn committed_entries_and_malformed_batches_are_never_taken() {
    let mut node = RaftNode::new(RaftConfig::new(1, &[2, 3]));
    let _ = node
        .step(append(1, (0, 0), vec![cmd(1, 1), cmd(1, 2)], 2))
        .unwrap();
    let r = append_reply(&node.step(append(2, (1, 1), vec![cmd(2, 2)], 0)).unwrap());
    assert_eq!((r.success, r.conflict_index), (false, 3));
    assert_eq!(node.log().term_at(2), Some(1));
    let r = append_reply(&node.step(append(2, (2, 1), vec![cmd(2, 4)], 0)).unwrap());
    assert!(!r.success);
    assert_eq!(node.log().last_index(), 2);
}

#[test]
fn leader_commits_on_a_quorum_and_applies_once() {
    let mut node = elect_multi_node_leader();
    let out = node.step(Event::Propose(b"x".to_vec())).unwrap();
    assert_eq!(appends_to(&out, 2).len(), 1);
    assert_eq!(appends_to(&out, 3).len(), 1);
    assert_eq!(appends_to(&out, 3)[0].entries.len(), 1);
    assert_eq!(node.commit_index(), 0);
    let out = acknowledge(&mut node, 2, 1);
    assert_eq!(applied(&out), vec![1]);
    assert_eq!(node.commit_index(), 1);
    assert_eq!(applied(&acknowledge(&mut node, 3, 1)), Vec::<u64>::new());
    // A claim past the leader's own log is ignored.
    let _ = acknowledge(&mut node, 3, 50);
    assert_eq!(node.commit_index(), 1);
}

#[test]
fn entries_of_earlier_terms_are_not_committed_by_counting() {
    // A log with an uncommitted entry of term 1, leading in a later term.
    let mut log = MemoryLog::new();
    log.append(&[cmd(1, 1)]).unwrap();
    log.set_hard_state(HardState {
        term: 1,
        voted_for: None,
    })
    .unwrap();
    let mut node = RaftNode::with_log(RaftConfig::new(1, &[2, 3]), log);
    while node.role() != Role::Candidate {
        let _ = node.step(Event::Tick).unwrap();
    }
    let term = node.term();
    let _ = node
        .step(Event::Message(Message::RequestVoteReply(
            RequestVoteReply {
                term,
                vote_granted: true,
                from: 2,
            },
        )))
        .unwrap();
    assert!(node.is_leader());
    let _ = acknowledge(&mut node, 2, 1);
    assert_eq!(node.commit_index(), 0);
    // One entry of its own term carries the earlier one along.
    let _ = node.step(Event::Propose(b"y".to_vec())).unwrap();
    let out = acknowledge(&mut node, 2, 2);
    assert_eq!(applied(&out), vec![1, 2]);
}

#[test]
fn batches_are_bounded_and_rejections_back_off_by_a_term() {
    let mut log = MemoryLog::new();
    log.append(&[cmd(1, 1), cmd(1, 2), cmd(3, 3), cmd(3, 4), cmd(3, 5)])
        .unwrap();
    log.set_hard_state(HardState {
        term: 3,
        voted_for: None,
    })
    .unwrap();
    let cfg = RaftConfig::new(1, &[2, 3]).with_max_batch(2);
    let mut node = RaftNode::with_log(cfg, log);
    while node.role() != Role::Candidate {
        let _ = node.step(Event::Tick).unwrap();
    }
    let term = node.term();
    let out = node
        .step(Event::Message(Message::RequestVoteReply(
            RequestVoteReply {
                term,
                vote_granted: true,
                from: 2,
            },
        )))
        .unwrap();
    let probe = &appends_to(&out, 2)[0];
    assert_eq!((probe.prev_log_index, probe.prev_log_term), (5, 3));
    assert!(probe.entries.is_empty());

    // The follower has term 2 from index 3 on: the leader has no such term, so
    // it goes where the follower says.
    let reject = |conflict_index, conflict_term| {
        Event::Message(Message::AppendEntriesReply(AppendEntriesReply {
            term,
            success: false,
            from: 2,
            match_index: 0,
            conflict_index,
            conflict_term,
        }))
    };
    let out = node.step(reject(3, 2)).unwrap();
    let m = &appends_to(&out, 2)[0];
    assert_eq!((m.prev_log_index, m.entries.len()), (2, 2));
    // A conflicting term the leader does have: past its own last entry of it.
    let out = node.step(reject(1, 1)).unwrap();
    let m = &appends_to(&out, 2)[0];
    assert_eq!(m.prev_log_index, 1);
    // Once the match is known, batches stream without waiting.
    let out = acknowledge(&mut node, 2, 2);
    assert_eq!(appends_to(&out, 2)[0].entries.len(), 2);
    let out = acknowledge(&mut node, 2, 4);
    assert_eq!(appends_to(&out, 2)[0].prev_log_index, 4);
}

#[test]
fn votes_count_once_and_only_from_voters() {
    let mut node = RaftNode::new(RaftConfig::new(1, &[2, 3, 4, 5]));
    while node.role() != Role::Candidate {
        let _ = node.step(Event::Tick).unwrap();
    }
    let term = node.term();
    let vote = |from, term| {
        Event::Message(Message::RequestVoteReply(RequestVoteReply {
            term,
            vote_granted: true,
            from,
        }))
    };
    for (from, t) in [(2, term), (2, term), (9, term), (3, term - 1)] {
        let _ = node.step(vote(from, t)).unwrap();
        assert_eq!(node.role(), Role::Candidate);
    }
    let _ = node.step(vote(3, term)).unwrap();
    assert!(node.is_leader());
}

#[test]
fn an_active_leader_is_not_unseated_without_force() {
    let mut node = RaftNode::new(RaftConfig::new(1, &[2, 3]));
    let _ = node.step(append(1, (0, 0), vec![], 0)).unwrap();
    let ask = |term, force| {
        Event::Message(Message::RequestVote(RequestVote {
            term,
            candidate: 3,
            last_log_index: 0,
            last_log_term: 0,
            force,
        }))
    };
    assert!(node.step(ask(9, false)).unwrap().is_empty());
    assert_eq!(node.term(), 1);
    assert_eq!(node.leader(), Some(2));
    let out = node.step(ask(9, true)).unwrap();
    assert_eq!(out.len(), 1);
    assert_eq!(node.term(), 9);

    // Once the minimum timeout has passed in silence, the request counts.
    let mut node = RaftNode::new(RaftConfig::new(1, &[2, 3]).with_election_timeout(3, 9));
    let _ = node.step(append(1, (0, 0), vec![], 0)).unwrap();
    for _ in 0..3 {
        let _ = node.step(Event::Tick).unwrap();
    }
    if node.role() == Role::Follower {
        assert_eq!(node.step(ask(9, false)).unwrap().len(), 1);
        assert_eq!(node.term(), 9);
    }
}

#[test]
fn stale_logs_get_no_vote() {
    let mut node = RaftNode::new(RaftConfig::new(1, &[2, 3]));
    let _ = node
        .step(append(2, (0, 0), vec![cmd(1, 1), cmd(2, 2)], 0))
        .unwrap();
    for (term, index, granted) in [(1, 9, false), (2, 1, false), (2, 2, true), (3, 0, true)] {
        let mut node = RaftNode::with_log(RaftConfig::new(1, &[2, 3]), node.log().clone());
        let out = node
            .step(Event::Message(Message::RequestVote(RequestVote {
                term: 7,
                candidate: 3,
                last_log_index: index,
                last_log_term: term,
                force: false,
            })))
            .unwrap();
        let reply = match &out[0] {
            Action::Send {
                to: 3,
                message: Message::RequestVoteReply(r),
            } => r.clone(),
            other => panic!("unexpected {other:?}"),
        };
        assert_eq!((reply.term, reply.vote_granted), (7, granted));
    }
}

#[test]
fn probes_are_answered_and_change_nothing() {
    let mut node = RaftNode::new(RaftConfig::new(1, &[2, 3]));
    let probe = |term| {
        Event::Message(Message::PreVote(PreVote {
            term,
            candidate: 3,
            last_log_index: 0,
            last_log_term: 0,
        }))
    };
    let granted = |out: &[Action]| match &out[0] {
        Action::Send {
            to: 3,
            message: Message::PreVoteReply(r),
        } => (r.term, r.vote_granted, r.from),
        other => panic!("unexpected {other:?}"),
    };
    let out = node.step(probe(1)).unwrap();
    assert_eq!(granted(&out), (0, true, 1));
    assert_eq!((node.term(), node.log().hard_state().voted_for), (0, None));
    // Granting is repeatable.
    assert_eq!(granted(&node.step(probe(1)).unwrap()), (0, true, 1));
    // Not while a leader is active, and not for a term that lies behind.
    let _ = node.step(append(4, (0, 0), vec![], 0)).unwrap();
    assert_eq!(granted(&node.step(probe(5)).unwrap()), (4, false, 1));
    let mut idle = RaftNode::with_log(RaftConfig::new(1, &[2, 3]), node.log().clone());
    assert_eq!(granted(&idle.step(probe(3)).unwrap()), (4, false, 1));
    assert_eq!(granted(&idle.step(probe(5)).unwrap()), (4, true, 1));
}

#[test]
fn membership_changes_take_effect_on_append_one_at_a_time() {
    let mut node = elect_multi_node_leader();
    let out = node.step(Event::AddServer(4)).unwrap();
    assert_eq!(
        out[0],
        Action::MembershipChanged {
            members: vec![1, 2, 3, 4]
        }
    );
    assert_eq!(node.members(), &[1, 2, 3, 4]);
    assert_eq!(appends_to(&out, 4).len(), 1);
    let e = node.log().entry(1).unwrap();
    assert_eq!(e.kind, EntryKind::Config);
    assert!(matches!(
        node.step(Event::RemoveServer(2)).unwrap_err(),
        Error::ConfigInProgress
    ));
    // Three of four voters are a majority; the entry itself is not applied.
    let out = acknowledge(&mut node, 2, 1);
    assert_eq!(node.commit_index(), 0);
    assert!(applied(&out).is_empty());
    let out = acknowledge(&mut node, 3, 1);
    assert_eq!(node.commit_index(), 1);
    assert!(applied(&out).is_empty());
    // Adding a voter again, or removing a stranger, changes nothing.
    assert!(node.step(Event::AddServer(4)).unwrap().is_empty());
    assert!(node.step(Event::RemoveServer(9)).unwrap().is_empty());
    assert_eq!(node.log().last_index(), 1);
}

#[test]
fn a_removed_leader_steps_down_once_the_change_commits() {
    let mut node = elect_multi_node_leader();
    let _ = node.step(Event::RemoveServer(1)).unwrap();
    assert!(node.is_leader());
    assert_eq!(node.members(), &[2, 3]);
    let _ = acknowledge(&mut node, 2, 1);
    assert!(node.is_leader());
    let _ = acknowledge(&mut node, 3, 1);
    assert_eq!(node.role(), Role::Follower);
    assert_eq!(node.commit_index(), 1);
    // It no longer votes, so it never campaigns.
    for _ in 0..200 {
        assert!(node.step(Event::Tick).unwrap().is_empty());
    }
    // The last voter cannot be removed.
    let mut solo = RaftNode::new(RaftConfig::single(1));
    drive_to_leader(&mut solo);
    assert!(solo.step(Event::RemoveServer(1)).unwrap().is_empty());
    assert_eq!(solo.members(), &[1]);
}

#[test]
fn followers_adopt_and_revert_configurations() {
    let mut node = RaftNode::new(RaftConfig::new(1, &[2, 3]));
    let config = LogEntry::config(1, 2, &[1, 2, 3, 4]);
    let out = node
        .step(append(1, (0, 0), vec![cmd(1, 1), config], 0))
        .unwrap();
    assert_eq!(
        out[0],
        Action::MembershipChanged {
            members: vec![1, 2, 3, 4]
        }
    );
    let out = node.step(append(2, (1, 1), vec![cmd(2, 2)], 0)).unwrap();
    assert_eq!(
        out[0],
        Action::MembershipChanged {
            members: vec![1, 2, 3]
        }
    );
    assert_eq!(node.members(), &[1, 2, 3]);
}

#[test]
fn membership_is_recovered_from_the_log_or_the_snapshot() {
    let mut log = MemoryLog::new();
    log.apply_snapshot(&Snapshot::with_config(2, 1, vec![1, 5], vec![]))
        .unwrap();
    let node = RaftNode::with_log(RaftConfig::new(1, &[2, 3]), log.clone());
    assert_eq!(node.members(), &[1, 5]);
    assert_eq!((node.commit_index(), node.last_applied()), (2, 2));
    log.append(&[LogEntry::config(1, 3, &[1, 5, 6])]).unwrap();
    let node = RaftNode::with_log(RaftConfig::new(1, &[2, 3]), log);
    assert_eq!(node.members(), &[1, 5, 6]);
}

#[test]
fn snapshots_compact_only_what_is_applied() {
    let mut node = RaftNode::new(RaftConfig::single(1).with_snapshot_threshold(2));
    drive_to_leader(&mut node);
    assert!(!node
        .step(Event::Propose(b"a".to_vec()))
        .unwrap()
        .iter()
        .any(|a| matches!(a, Action::Snapshot { .. })));
    let out = node.step(Event::Propose(b"b".to_vec())).unwrap();
    assert_eq!(out.last(), Some(&Action::Snapshot { index: 2, term: 1 }));
    // Past what is applied: ignored.
    let early = Event::Snapshot {
        index: 3,
        data: vec![],
    };
    assert!(node.step(early).unwrap().is_empty());
    assert_eq!(node.log().snapshot_index(), 0);
    let due = Event::Snapshot {
        index: 2,
        data: b"state".to_vec(),
    };
    assert!(node.step(due).unwrap().is_empty());
    assert_eq!(node.log().snapshot_index(), 2);
    assert_eq!(node.log().snapshot().unwrap().config, vec![1]);
    assert_eq!(node.members(), &[1]);
    // A stale one: ignored.
    let stale = Event::Snapshot {
        index: 1,
        data: vec![],
    };
    assert!(node.step(stale).unwrap().is_empty());
    assert_eq!(node.log().snapshot().unwrap().data, b"state");
}

#[test]
fn snapshots_are_installed_only_forwards() {
    let mut node = RaftNode::new(RaftConfig::new(1, &[2, 3]));
    let install = |index, data: &[u8]| {
        Event::Message(Message::InstallSnapshot(InstallSnapshot {
            term: 3,
            leader: 2,
            snapshot: Snapshot::with_config(index, 2, vec![1, 2, 3, 4], data.to_vec()),
        }))
    };
    let out = node.step(install(10, b"ten")).unwrap();
    assert_eq!(
        out,
        vec![
            Action::RestoreSnapshot {
                index: 10,
                term: 2,
                data: b"ten".to_vec()
            },
            Action::MembershipChanged {
                members: vec![1, 2, 3, 4]
            },
            Action::Send {
                to: 2,
                message: Message::InstallSnapshotReply(InstallSnapshotReply {
                    term: 3,
                    from: 1,
                    last_index: 10
                })
            },
        ]
    );
    assert_eq!((node.commit_index(), node.last_applied()), (10, 10));
    // An older one is acknowledged and not installed.
    let out = node.step(install(4, b"four")).unwrap();
    assert_eq!(
        out,
        vec![Action::Send {
            to: 2,
            message: Message::InstallSnapshotReply(InstallSnapshotReply {
                term: 3,
                from: 1,
                last_index: 10
            })
        }]
    );
    // What precedes the boundary can no longer be checked. The leader is sent past
    // what is committed, whatever term it names.
    for term in [2, 77] {
        let entries = vec![cmd(2, 9), cmd(2, 10), cmd(3, 11)];
        let out = node.step(append(3, (8, term), entries, 0)).unwrap();
        let reply = append_reply(&out);
        assert_eq!((reply.success, reply.match_index), (false, 0));
        assert_eq!((reply.conflict_index, reply.conflict_term), (11, 0));
    }
    assert_eq!(node.log().last_index(), 10);
    // A batch from the start is taken from the boundary on.
    let mut entries: Vec<LogEntry> = (1..=10).map(|i| cmd(2, i)).collect();
    entries.push(cmd(3, 11));
    let out = node.step(append(3, (0, 0), entries, 0)).unwrap();
    assert_eq!(append_reply(&out).match_index, 11);
    assert_eq!(node.log().entry(11), Some(cmd(3, 11)));
    // At the boundary its term decides.
    let out = node.step(append(3, (10, 1), vec![], 0)).unwrap();
    assert!(!append_reply(&out).success);
    let out = node.step(append(3, (10, 2), vec![], 0)).unwrap();
    assert_eq!(append_reply(&out).match_index, 10);
}

#[test]
fn a_follower_that_compacted_is_caught_up() {
    // The leader's news of the follower is older than the follower's snapshot.
    let mut leader = elect_multi_node_leader();
    let term = leader.term();
    for _ in 0..6 {
        let _ = leader.step(Event::Propose(b"x".to_vec())).unwrap();
    }
    let reject = |conflict_index| {
        Event::Message(Message::AppendEntriesReply(AppendEntriesReply {
            term,
            success: false,
            from: 3,
            match_index: 0,
            conflict_index,
            conflict_term: 0,
        }))
    };
    let _ = acknowledge(&mut leader, 2, 6);
    let _ = acknowledge(&mut leader, 3, 2);
    let out = leader.step(reject(1)).unwrap();
    assert_eq!(appends_to(&out, 3)[0].prev_log_index, 2);
    // The follower has everything through 5 in a snapshot, and says so.
    let mut log = MemoryLog::new();
    log.append(&(1..=5).map(|i| cmd(term, i)).collect::<Vec<_>>())
        .unwrap();
    log.apply_snapshot(&Snapshot::with_config(5, term, vec![1, 2, 3], vec![]))
        .unwrap();
    let mut follower = RaftNode::with_log(RaftConfig::new(3, &[1, 2]), log);
    let mut probe = appends_to(&out, 3)[0].clone();
    for _ in 0..2 {
        let out = follower
            .step(Event::Message(Message::AppendEntries(probe)))
            .unwrap();
        let reply = append_reply(&out);
        let out = leader
            .step(Event::Message(Message::AppendEntriesReply(reply)))
            .unwrap();
        match appends_to(&out, 3).first() {
            Some(next) => probe = next.clone(),
            None => {
                assert_eq!(follower.log().last_index(), 6);
                return;
            }
        }
    }
    panic!("the follower never caught up");
}

#[test]
fn voters_are_sent_to_in_the_order_of_the_configuration() {
    let targets = |actions: &[Action]| -> Vec<NodeId> {
        actions
            .iter()
            .filter_map(|a| match a {
                Action::Send { to, .. } => Some(*to),
                _ => None,
            })
            .collect()
    };
    let mut node = RaftNode::new(RaftConfig::new(1, &[3, 2, 3]).with_heartbeat_interval(1));
    let mut out = Vec::new();
    while out.is_empty() {
        out = node.step(Event::Tick).unwrap();
    }
    assert_eq!(targets(&out), [3, 2]);
    let term = node.term();
    let vote = Message::RequestVoteReply(RequestVoteReply {
        term,
        vote_granted: true,
        from: 2,
    });
    assert_eq!(targets(&node.step(Event::Message(vote)).unwrap()), [3, 2]);
    assert_eq!(targets(&node.step(Event::Tick).unwrap()), [3, 2]);
    // A change of the voters puts them in ascending order.
    assert_eq!(targets(&node.step(Event::AddServer(4)).unwrap()), [2, 3, 4]);
    assert_eq!(targets(&node.step(Event::Tick).unwrap()), [2, 3, 4]);
}

#[test]
fn a_far_behind_follower_is_sent_the_snapshot() {
    let mut log = MemoryLog::new();
    log.append(&[cmd(1, 1), cmd(1, 2), cmd(1, 3)]).unwrap();
    log.apply_snapshot(&Snapshot::with_config(2, 1, vec![1, 2, 3], b"s".to_vec()))
        .unwrap();
    log.set_hard_state(HardState {
        term: 1,
        voted_for: None,
    })
    .unwrap();
    let mut node = RaftNode::with_log(RaftConfig::new(1, &[2, 3]), log);
    while node.role() != Role::Candidate {
        let _ = node.step(Event::Tick).unwrap();
    }
    let term = node.term();
    let _ = node
        .step(Event::Message(Message::RequestVoteReply(
            RequestVoteReply {
                term,
                vote_granted: true,
                from: 2,
            },
        )))
        .unwrap();
    let out = node
        .step(Event::Message(Message::AppendEntriesReply(
            AppendEntriesReply {
                term,
                success: false,
                from: 3,
                match_index: 0,
                conflict_index: 1,
                conflict_term: 0,
            },
        )))
        .unwrap();
    assert!(matches!(
        &out[0],
        Action::Send { to: 3, message: Message::InstallSnapshot(m) } if m.snapshot.index == 2
    ));
    let out = node
        .step(Event::Message(Message::InstallSnapshotReply(
            InstallSnapshotReply {
                term,
                from: 3,
                last_index: 2,
            },
        )))
        .unwrap();
    assert_eq!(appends_to(&out, 3)[0].prev_log_index, 2);
    assert_eq!(appends_to(&out, 3)[0].entries, vec![cmd(1, 3)]);
}

#[test]
fn a_transfer_declines_proposals_and_signals_the_target() {
    let mut node = elect_multi_node_leader();
    let _ = node.step(Event::Propose(b"x".to_vec())).unwrap();
    let out = node.step(Event::TransferLeadership(2)).unwrap();
    assert_eq!(appends_to(&out, 2).len(), 1);
    assert!(matches!(
        node.step(Event::Propose(b"y".to_vec())).unwrap_err(),
        Error::NotLeader { leader: Some(2) }
    ));
    let out = acknowledge(&mut node, 2, 1);
    assert!(out.iter().any(|a| matches!(
        a,
        Action::Send {
            to: 2,
            message: Message::TimeoutNow(TimeoutNow { leader: 1, .. })
        }
    )));
    // A target that does not take over is given up in time.
    for _ in 0..40 {
        let _ = node.step(Event::Tick).unwrap();
    }
    assert!(node.step(Event::Propose(b"z".to_vec())).is_ok());
    // Handing over to oneself or to a stranger changes nothing.
    assert!(node.step(Event::TransferLeadership(1)).unwrap().is_empty());
    assert!(node.step(Event::TransferLeadership(8)).unwrap().is_empty());
    let mut follower = RaftNode::new(RaftConfig::new(1, &[2, 3]));
    assert!(follower.step(Event::TransferLeadership(2)).is_err());
    assert!(follower.step(Event::AddServer(2)).is_err());
    assert!(follower.step(Event::RemoveServer(2)).is_err());
}

#[test]
fn timeout_now_forces_an_election() {
    let mut node = RaftNode::new(RaftConfig::new(1, &[2, 3]));
    let _ = node.step(append(3, (0, 0), vec![], 0)).unwrap();
    let now = |term| Event::Message(Message::TimeoutNow(TimeoutNow { term, leader: 2 }));
    assert!(node.step(now(2)).unwrap().is_empty());
    let out = node.step(now(3)).unwrap();
    assert_eq!(node.role(), Role::Candidate);
    assert_eq!(node.term(), 4);
    assert!(out.iter().all(|a| matches!(
        a,
        Action::Send { message: Message::RequestVote(rv), .. } if rv.force && rv.term == 4
    )));
    assert_eq!(out.len(), 2);
}

#[test]
fn equal_seeds_and_events_give_equal_actions() {
    let make = || RaftNode::new(RaftConfig::new(1, &[2, 3]).with_seed(77));
    let (mut a, mut b) = (make(), make());
    for i in 0..300u64 {
        let event = |i: u64| match i % 7 {
            3 => append(1 + i / 50, (0, 0), vec![], 0),
            _ => Event::Tick,
        };
        assert_eq!(a.step(event(i)).unwrap(), b.step(event(i)).unwrap());
        assert_eq!((a.term(), a.role()), (b.term(), b.role()));
    }
}

/// A copy of an action is equal to it.
#[test]
fn actions_can_be_copied() {
    let actions = vec![
        Action::Send {
            to: 2,
            message: Message::TimeoutNow(TimeoutNow { term: 7, leader: 1 }),
        },
        Action::Apply {
            index: 3,
            term: 2,
            command: b"set".to_vec(),
        },
    ];
    assert_eq!(actions.clone(), actions);
    let mut other = actions.clone();
    if let Action::Apply { command, .. } = &mut other[1] {
        command.push(0);
    }
    assert_ne!(other, actions);
}
