//! Messages and value types.

use raft_io::{
    AppendEntries, AppendEntriesReply, EntryKind, HardState, InstallSnapshot, InstallSnapshotReply,
    LogEntry, Message, PreVote, PreVoteReply, RequestVote, RequestVoteReply, Role, Snapshot,
    TimeoutNow,
};

#[test]
fn test_message_term_reads_each_variant() {
    assert_eq!(
        Message::RequestVote(RequestVote {
            term: 1,
            candidate: 1,
            last_log_index: 0,
            last_log_term: 0,
            force: false,
        })
        .term(),
        1
    );
    assert_eq!(
        Message::RequestVoteReply(RequestVoteReply {
            term: 2,
            vote_granted: true,
            from: 1
        })
        .term(),
        2
    );
    assert_eq!(
        Message::AppendEntries(AppendEntries {
            term: 3,
            leader: 1,
            prev_log_index: 0,
            prev_log_term: 0,
            entries: Vec::new(),
            leader_commit: 0,
        })
        .term(),
        3
    );
    assert_eq!(
        Message::AppendEntriesReply(AppendEntriesReply {
            term: 4,
            success: true,
            from: 1,
            match_index: 0,
            conflict_index: 0,
            conflict_term: 0,
        })
        .term(),
        4
    );
}

#[test]
fn term_of_the_remaining_variants() {
    let snapshot = Snapshot::new(1, 1, vec![]);
    assert_eq!(
        Message::InstallSnapshot(InstallSnapshot {
            term: 5,
            leader: 1,
            snapshot
        })
        .term(),
        5
    );
    assert_eq!(
        Message::InstallSnapshotReply(InstallSnapshotReply {
            term: 6,
            from: 1,
            last_index: 1
        })
        .term(),
        6
    );
    assert_eq!(
        Message::TimeoutNow(TimeoutNow { term: 7, leader: 1 }).term(),
        7
    );
    assert_eq!(
        Message::PreVote(PreVote {
            term: 8,
            candidate: 1,
            last_log_index: 0,
            last_log_term: 0
        })
        .term(),
        8
    );
    assert_eq!(
        Message::PreVoteReply(PreVoteReply {
            term: 9,
            vote_granted: false,
            from: 1
        })
        .term(),
        9
    );
}

#[test]
fn test_log_entry_new_sets_all_fields() {
    let e = LogEntry::new(3, 9, vec![1, 2, 3]);
    assert_eq!(e.term, 3);
    assert_eq!(e.index, 9);
    assert_eq!(e.command, vec![1, 2, 3]);
}

#[test]
fn test_hard_state_default_is_term_zero_no_vote() {
    let hs = HardState::default();
    assert_eq!(
        hs,
        HardState {
            term: 0,
            voted_for: None
        }
    );
}

#[test]
fn test_role_is_copy_and_comparable() {
    let r = Role::Leader;
    let copy = r;
    assert_eq!(r, copy);
    assert_ne!(Role::Follower, Role::Candidate);
}

#[test]
fn config_entry_carries_sorted_members() {
    let e = LogEntry::config(5, 4, &[3, 1, 2, 1]);
    assert_eq!(e.kind, EntryKind::Config);
    assert_eq!(e.command.len(), 24);
    assert_eq!(&e.command[..8], &1u64.to_le_bytes());
    assert_eq!(e.members(), Some(vec![1, 2, 3]));
    assert_eq!(LogEntry::new(5, 4, vec![0; 16]).members(), None);

    // A trailing partial group is ignored.
    let mut torn = LogEntry::config(5, 4, &[1, 2]);
    torn.command.push(0xFF);
    assert_eq!(torn.members(), Some(vec![1, 2]));
}

#[test]
fn snapshot_constructors() {
    let plain = Snapshot::new(10, 3, b"state".to_vec());
    assert_eq!((plain.index, plain.term), (10, 3));
    assert!(plain.config.is_empty());
    let full = Snapshot::with_config(10, 3, vec![1, 2], b"state".to_vec());
    assert_eq!(full.config, vec![1, 2]);
    assert_eq!(full.clone(), full);
}
