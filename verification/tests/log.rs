//! The in-memory log.

use raft_io::{Error, HardState, Index, LogEntry, MemoryLog, RaftLog, Snapshot, Term};

fn entry(term: Term, index: Index) -> LogEntry {
    LogEntry::new(term, index, vec![index as u8])
}

#[test]
fn test_empty_log_reports_zero() {
    let log = MemoryLog::new();
    assert_eq!(log.last_index(), 0);
    assert_eq!(log.last_term(), 0);
    assert!(log.is_empty());
    assert_eq!(log.entry(0), None);
    assert_eq!(log.entry(1), None);
}

#[test]
fn test_term_at_sentinel_is_zero() {
    assert_eq!(MemoryLog::new().term_at(0), Some(0));
}

#[test]
fn test_append_and_read_back() {
    let mut log = MemoryLog::new();
    log.append(&[entry(1, 1), entry(1, 2)]).unwrap();
    log.append(&[entry(2, 3)]).unwrap();
    assert_eq!(log.last_index(), 3);
    assert_eq!(log.last_term(), 2);
    assert_eq!(log.term_at(2), Some(1));
    assert_eq!(log.term_at(3), Some(2));
    assert_eq!(log.term_at(4), None);
    assert_eq!(log.entry(3).unwrap().term, 2);
}

#[test]
fn test_append_empty_is_noop() {
    let mut log = MemoryLog::new();
    log.append(&[]).unwrap();
    assert_eq!(log.last_index(), 0);
}

#[test]
fn test_append_rejects_gap() {
    let mut log = MemoryLog::new();
    let err = log.append(&[entry(1, 2)]).unwrap_err();
    assert!(matches!(err, Error::Storage { .. }));
}

#[test]
fn test_append_rejects_internally_noncontiguous_batch() {
    let mut log = MemoryLog::new();
    let err = log.append(&[entry(1, 1), entry(1, 3)]).unwrap_err();
    assert!(matches!(err, Error::Storage { .. }));
}

#[test]
fn refusals_say_why_and_change_nothing() {
    let mut log = MemoryLog::new();
    log.append(&[entry(1, 1)]).unwrap();
    let gap = log.append(&[entry(1, 5)]).unwrap_err();
    assert_eq!(
        gap.to_string(),
        "log storage error while append entries: non-contiguous append: expected index 2, got 5"
    );
    let inner = log.append(&[entry(1, 2), entry(1, 2)]).unwrap_err();
    assert_eq!(
        inner.to_string(),
        "log storage error while append entries: entries within the batch are not contiguous"
    );
    let zero = log.truncate(0).unwrap_err();
    assert_eq!(
        zero.to_string(),
        "log storage error while truncate log: cannot truncate the sentinel at index 0"
    );
    assert_eq!(log.last_index(), 1);
    assert_eq!(log.len(), 1);
}

#[test]
fn test_truncate_removes_tail() {
    let mut log = MemoryLog::new();
    log.append(&[entry(1, 1), entry(1, 2), entry(1, 3)])
        .unwrap();
    log.truncate(2).unwrap();
    assert_eq!(log.last_index(), 1);
    assert_eq!(log.entry(2), None);
}

#[test]
fn test_truncate_past_end_is_noop() {
    let mut log = MemoryLog::new();
    log.append(&[entry(1, 1)]).unwrap();
    log.truncate(5).unwrap();
    assert_eq!(log.last_index(), 1);
}

#[test]
fn test_truncate_zero_is_rejected() {
    let mut log = MemoryLog::new();
    assert!(log.truncate(0).is_err());
}

#[test]
fn test_hard_state_round_trips() {
    let mut log = MemoryLog::new();
    let hs = HardState {
        term: 4,
        voted_for: Some(2),
    };
    log.set_hard_state(hs).unwrap();
    assert_eq!(log.hard_state(), hs);
}

#[test]
fn test_sync_is_ok() {
    assert!(MemoryLog::new().sync().is_ok());
}

#[test]
fn entries_returns_the_inclusive_range() {
    let mut log = MemoryLog::new();
    log.append(&[entry(1, 1), entry(1, 2), entry(2, 3), entry(2, 4)])
        .unwrap();
    let indices = |from, to| -> Vec<u64> { log.entries(from, to).iter().map(|e| e.index).collect() };
    assert_eq!(indices(2, 3), vec![2, 3]);
    assert_eq!(indices(0, 1), vec![1]);
    assert_eq!(indices(3, u64::MAX), vec![3, 4]);
    assert_eq!(indices(4, 2), Vec::<u64>::new());
    assert_eq!(indices(9, 12), Vec::<u64>::new());
}

#[test]
fn compaction_keeps_an_agreeing_tail() {
    let mut log = MemoryLog::new();
    log.append(&[entry(1, 1), entry(1, 2), entry(2, 3)]).unwrap();
    log.apply_snapshot(&Snapshot::new(2, 1, vec![9])).unwrap();
    assert_eq!(log.snapshot_index(), 2);
    assert_eq!(log.term_at(2), Some(1));
    assert_eq!(log.term_at(1), None);
    assert_eq!(log.term_at(0), Some(0));
    assert_eq!(log.entry(2), None);
    assert_eq!(log.entry(3), Some(entry(2, 3)));
    assert_eq!(log.last_index(), 3);
    assert_eq!(log.entries(1, 9).len(), 1);
    assert_eq!(log.snapshot().unwrap().data, vec![9]);

    // A stale snapshot changes nothing.
    log.apply_snapshot(&Snapshot::new(2, 7, vec![1])).unwrap();
    assert_eq!(log.snapshot().unwrap().data, vec![9]);

    // Truncating at or below the boundary empties the tail but not the base.
    log.truncate(1).unwrap();
    assert_eq!(log.last_index(), 2);
    assert_eq!(log.last_term(), 1);
}

#[test]
fn compaction_drops_a_disagreeing_tail() {
    let mut log = MemoryLog::new();
    log.append(&[entry(1, 1), entry(1, 2), entry(1, 3)]).unwrap();
    log.apply_snapshot(&Snapshot::new(2, 2, vec![])).unwrap();
    assert_eq!(log.last_index(), 2);
    assert_eq!(log.last_term(), 2);
    assert_eq!(log.entry(3), None);

    // Past the end, everything is covered.
    log.apply_snapshot(&Snapshot::new(8, 3, vec![])).unwrap();
    assert_eq!(log.last_index(), 8);
    log.append(&[entry(3, 9)]).unwrap();
    assert_eq!(log.last_index(), 9);
    assert_eq!(log.clone().last_index(), 9);
}
