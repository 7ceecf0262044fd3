//! The durable log format, and a log kept in a `wal-db` write-ahead log.

use raft_io::wal_log::{
    decode, encode_entry, encode_hard_state, encode_snapshot, encode_truncate, kind_byte,
    kind_from_byte, read_u64, Decoded, Journal, TAG_ENTRY, TAG_HARD_STATE, TAG_SNAPSHOT,
    TAG_TRUNCATE,
};
use raft_io::{
    EntryKind, Error, HardState, Index, LogEntry, MemoryLog, RaftLog, Snapshot, Term,
};

/// A journal whose records go to a `wal-db` log: one file, or segments of which the
/// leading ones can be deleted.
struct WalLog<S: wal_db::WalStore> {
    wal: wal_db::Wal<S>,
    journal: Journal,
}

fn failed(context: &'static str, e: wal_db::WalError) -> Error {
    Error::storage(context, &e.to_string())
}

impl WalLog<wal_db::FileStore> {
    fn open(path: &std::path::Path) -> Result<Self, Error> {
        Self::over(wal_db::Wal::open(path).map_err(|e| failed("open durable log", e))?)
    }
}

impl WalLog<wal_db::SegmentedStore> {
    fn open_segmented(dir: &std::path::Path, size: u64) -> Result<Self, Error> {
        let wal = wal_db::Wal::open_segmented(dir, size);
        Self::over(wal.map_err(|e| failed("open durable log", e))?)
    }
}

impl<S: wal_db::WalStore> WalLog<S> {
    fn over(wal: wal_db::Wal<S>) -> Result<Self, Error> {
        let mut journal = Journal::new();
        for record in wal.iter().map_err(|e| failed("read durable log", e))? {
            let record = record.map_err(|e| failed("read durable log record", e))?;
            journal.replay(record.data())?;
        }
        Ok(Self { wal, journal })
    }

    fn write(&self, context: &'static str, record: &[u8]) -> Result<wal_db::Lsn, Error> {
        self.wal.append(record).map_err(|e| failed(context, e))
    }

    fn append(&mut self, entries: &[LogEntry]) -> Result<(), Error> {
        for record in self.journal.append(entries)? {
            self.write("append entry to durable log", &record)?;
        }
        Ok(())
    }

    fn truncate(&mut self, from: Index) -> Result<(), Error> {
        let record = self.journal.truncate(from)?;
        self.write("truncate durable log", &record)?;
        Ok(())
    }

    fn set_hard_state(&mut self, state: HardState) -> Result<(), Error> {
        let record = self.journal.set_hard_state(state);
        self.write("persist hard state", &record)?;
        Ok(())
    }

    fn apply_snapshot(&mut self, snapshot: &Snapshot) -> Result<(), Error> {
        let mut records = self.journal.apply_snapshot(snapshot).into_iter();
        if let Some(record) = records.next() {
            let lsn = self.write("persist snapshot", &record)?;
            for record in records {
                self.write("persist hard state", &record)?;
            }
            if self.journal.earlier_records_may_go() {
                // The file is merely larger if this fails, so the outcome is ignored.
                let _ = self.wal.truncate_before(lsn);
            }
        }
        Ok(())
    }

    fn sync(&mut self) -> Result<(), Error> {
        self.wal.sync().map_err(|e| failed("sync durable log", e))
    }

    fn last_index(&self) -> Index {
        self.journal.index().last_index()
    }

    fn last_term(&self) -> Term {
        self.journal.index().last_term()
    }

    fn entry(&self, index: Index) -> Option<LogEntry> {
        self.journal.index().entry(index)
    }

    fn term_at(&self, index: Index) -> Option<Term> {
        self.journal.index().term_at(index)
    }

    fn hard_state(&self) -> HardState {
        self.journal.index().hard_state()
    }

    fn snapshot_index(&self) -> Index {
        self.journal.index().snapshot_index()
    }

    fn snapshot(&self) -> Option<Snapshot> {
        self.journal.index().snapshot()
    }
}

fn entry(term: Term, index: Index, cmd: &[u8]) -> LogEntry {
    LogEntry::new(term, index, cmd.to_vec())
}

fn temp_path() -> (tempfile::TempDir, std::path::PathBuf) {
    let dir = tempfile::tempdir().unwrap();
    let path = dir.path().join("raft.wal");
    (dir, path)
}

#[test]
fn test_entry_codec_round_trips() {
    let e = entry(3, 9, b"hello world");
    match decode(&encode_entry(&e)).unwrap() {
        Decoded::Entry(got) => assert_eq!(got, e),
        _ => panic!("wrong record"),
    }
}

#[test]
fn test_hard_state_codec_round_trips() {
    for hs in [
        HardState {
            term: 7,
            voted_for: Some(4),
        },
        HardState {
            term: 0,
            voted_for: None,
        },
    ] {
        match decode(&encode_hard_state(&hs)).unwrap() {
            Decoded::HardState(got) => assert_eq!(got, hs),
            _ => panic!("wrong record"),
        }
    }
}

#[test]
fn test_truncate_codec_round_trips() {
    match decode(&encode_truncate(5)).unwrap() {
        Decoded::Truncate(from) => assert_eq!(from, 5),
        _ => panic!("wrong record"),
    }
}

#[test]
fn test_decode_rejects_malformed() {
    assert!(decode(&[]).is_err()); // empty
    assert!(decode(&[TAG_ENTRY, 1, 2, 3]).is_err()); // truncated entry
    assert!(decode(&[TAG_TRUNCATE, 0, 0]).is_err()); // short index
    assert!(decode(&[99]).is_err()); // unknown tag
    // Entry claiming a longer command than is present.
    let mut bad = encode_entry(&entry(1, 1, b"x"));
    let _ = bad.pop(); // drop the command byte; length now mismatches
    assert!(decode(&bad).is_err());
}

#[test]
fn test_append_sync_recover() {
    let (_dir, path) = temp_path();
    {
        let mut log = WalLog::open(&path).unwrap();
        log.append(&[entry(1, 1, b"a"), entry(1, 2, b"b")]).unwrap();
        log.set_hard_state(HardState {
            term: 1,
            voted_for: Some(2),
        })
        .unwrap();
        log.sync().unwrap();
    }
    let recovered = WalLog::open(&path).unwrap();
    assert_eq!(recovered.last_index(), 2);
    assert_eq!(recovered.last_term(), 1);
    assert_eq!(recovered.entry(2).unwrap().command, b"b");
    assert_eq!(
        recovered.hard_state(),
        HardState {
            term: 1,
            voted_for: Some(2)
        }
    );
}

#[test]
fn test_truncation_survives_recovery() {
    let (_dir, path) = temp_path();
    {
        let mut log = WalLog::open(&path).unwrap();
        log.append(&[entry(1, 1, b"a"), entry(1, 2, b"b"), entry(1, 3, b"c")])
            .unwrap();
        log.truncate(2).unwrap(); // drop indices >= 2
        log.append(&[entry(2, 2, b"B")]).unwrap(); // re-write index 2 in a new term
        log.sync().unwrap();
    }
    let recovered = WalLog::open(&path).unwrap();
    assert_eq!(recovered.last_index(), 2);
    assert_eq!(recovered.entry(2).unwrap().term, 2);
    assert_eq!(recovered.entry(2).unwrap().command, b"B");
    assert_eq!(recovered.entry(3), None);
}

#[test]
fn test_latest_hard_state_wins_on_recovery() {
    let (_dir, path) = temp_path();
    {
        let mut log = WalLog::open(&path).unwrap();
        log.set_hard_state(HardState {
            term: 1,
            voted_for: Some(1),
        })
        .unwrap();
        log.set_hard_state(HardState {
            term: 2,
            voted_for: None,
        })
        .unwrap();
        log.set_hard_state(HardState {
            term: 3,
            voted_for: Some(2),
        })
        .unwrap();
        log.sync().unwrap();
    }
    let recovered = WalLog::open(&path).unwrap();
    assert_eq!(
        recovered.hard_state(),
        HardState {
            term: 3,
            voted_for: Some(2)
        }
    );
}

#[test]
fn test_snapshot_compaction_survives_recovery() {
    let (_dir, path) = temp_path();
    {
        let mut log = WalLog::open(&path).unwrap();
        log.append(&[entry(1, 1, b"a"), entry(1, 2, b"b"), entry(2, 3, b"c")])
            .unwrap();
        log.apply_snapshot(&Snapshot::new(2, 1, b"state@2".to_vec()))
            .unwrap();
        log.append(&[entry(2, 4, b"d")]).unwrap();
        log.sync().unwrap();
    }
    let recovered = WalLog::open(&path).unwrap();
    // The snapshot boundary, the surviving tail, and the snapshot bytes all
    // came back; compacted entries did not.
    assert_eq!(recovered.snapshot_index(), 2);
    assert_eq!(recovered.last_index(), 4);
    assert_eq!(recovered.entry(1), None);
    assert_eq!(recovered.entry(2), None);
    assert_eq!(recovered.term_at(2), Some(1));
    assert_eq!(recovered.entry(3).unwrap().command, b"c");
    assert_eq!(recovered.entry(4).unwrap().command, b"d");
    assert_eq!(recovered.snapshot().unwrap().data, b"state@2");
}

#[test]
fn test_snapshot_codec_round_trips() {
    let snap = Snapshot::with_config(9, 4, vec![1, 2, 3], b"payload".to_vec());
    match decode(&encode_snapshot(&snap)).unwrap() {
        Decoded::Snapshot(got) => assert_eq!(got, snap),
        _ => panic!("wrong record"),
    }
}

#[test]
fn test_config_entry_and_snapshot_membership_survive_recovery() {
    let (_dir, path) = temp_path();
    {
        let mut log = WalLog::open(&path).unwrap();
        log.apply_snapshot(&Snapshot::with_config(2, 1, vec![1, 2, 3], b"s".to_vec()))
            .unwrap();
        log.append(&[LogEntry::config(2, 3, &[1, 2, 3, 4])])
            .unwrap();
        log.sync().unwrap();
    }
    let recovered = WalLog::open(&path).unwrap();
    assert_eq!(recovered.snapshot().unwrap().config, vec![1, 2, 3]);
    assert_eq!(
        recovered.entry(3).unwrap().members(),
        Some(vec![1, 2, 3, 4])
    );
}

#[test]
fn test_empty_log_opens_clean() {
    let (_dir, path) = temp_path();
    let log = WalLog::open(&path).unwrap();
    assert_eq!(log.last_index(), 0);
    assert_eq!(log.hard_state(), HardState::default());
}

#[test]
fn test_non_contiguous_append_is_rejected_before_write() {
    let (_dir, path) = temp_path();
    let mut log = WalLog::open(&path).unwrap();
    assert!(log.append(&[entry(1, 5, b"x")]).is_err());
    // The rejected batch left nothing behind.
    assert_eq!(log.last_index(), 0);
    drop(log);
    assert_eq!(WalLog::open(&path).unwrap().last_index(), 0);
}

#[test]
fn records_have_the_documented_bytes() {
    let mut want = vec![TAG_ENTRY];
    want.extend_from_slice(&3u64.to_le_bytes());
    want.extend_from_slice(&9u64.to_le_bytes());
    want.push(0);
    want.extend_from_slice(&2u64.to_le_bytes());
    want.extend_from_slice(b"hi");
    assert_eq!(encode_entry(&entry(3, 9, b"hi")), want);

    let mut want = vec![TAG_HARD_STATE];
    want.extend_from_slice(&7u64.to_le_bytes());
    want.push(1);
    want.extend_from_slice(&4u64.to_le_bytes());
    let hs = HardState {
        term: 7,
        voted_for: Some(4),
    };
    assert_eq!(encode_hard_state(&hs), want);

    let mut want = vec![TAG_TRUNCATE];
    want.extend_from_slice(&5u64.to_le_bytes());
    assert_eq!(encode_truncate(5), want);

    let mut want = vec![TAG_SNAPSHOT];
    for word in [9u64, 4, 2, 1, 2, 1] {
        want.extend_from_slice(&word.to_le_bytes());
    }
    want.push(b'p');
    let snap = Snapshot::with_config(9, 4, vec![1, 2], b"p".to_vec());
    assert_eq!(encode_snapshot(&snap), want);
}

fn refusal(data: &[u8]) -> String {
    match decode(data) {
        Err(Error::Storage { context, detail }) => {
            assert_eq!(context, "decode durable log record");
            detail
        }
        other => panic!("unexpected {other:?}"),
    }
}

#[test]
fn every_refusal_says_why() {
    assert_eq!(refusal(&[]), "empty record");
    assert_eq!(refusal(&[99]), "unknown record tag 99");
    assert_eq!(refusal(&[TAG_ENTRY, 1, 2, 3]), "record truncated");
    assert_eq!(refusal(&[TAG_TRUNCATE, 0, 0]), "record truncated");
    let good = encode_entry(&entry(1, 1, b"x"));
    assert_eq!(refusal(&good[..17]), "entry truncated");
    assert_eq!(refusal(&good[..20]), "record truncated");
    assert_eq!(refusal(&good[..26]), "entry length mismatch");
    let mut odd = good;
    odd[17] = 2;
    assert_eq!(refusal(&odd), "unknown entry kind 2");
    let hard = encode_hard_state(&HardState::default());
    assert_eq!(refusal(&hard[..9]), "hard-state truncated");
    assert_eq!(refusal(&hard[..12]), "record truncated");
    let snap = encode_snapshot(&Snapshot::with_config(9, 4, vec![1, 2], b"p".to_vec()));
    assert_eq!(refusal(&snap[..30]), "record truncated");
    assert_eq!(refusal(&snap[..snap.len() - 1]), "snapshot length mismatch");
    // A count of voters that no record could hold.
    let mut huge = snap;
    for byte in &mut huge[17..25] {
        *byte = 0xFF;
    }
    assert_eq!(refusal(&huge), "record truncated");
}

#[test]
fn primitives_read_back() {
    assert_eq!(read_u64(&[0, 1, 0, 0, 0, 0, 0, 0, 0], 1).unwrap(), 1);
    assert!(read_u64(&[0; 9], 2).is_err());
    assert!(read_u64(&[0; 9], usize::MAX).is_err());
    for kind in [EntryKind::Normal, EntryKind::Config] {
        assert_eq!(kind_from_byte(kind_byte(kind)).unwrap(), kind);
    }
    assert!(kind_from_byte(2).is_err());
    // A vote counts only when its flag is one.
    let mut record = encode_hard_state(&HardState {
        term: 1,
        voted_for: Some(3),
    });
    record[9] = 2;
    match decode(&record).unwrap() {
        Decoded::HardState(h) => assert_eq!(h.voted_for, None),
        other => panic!("unexpected {other:?}"),
    }
}

fn same(a: &MemoryLog, b: &MemoryLog) {
    assert_eq!(a.last_index(), b.last_index());
    assert_eq!(a.snapshot(), b.snapshot());
    assert_eq!(a.hard_state(), b.hard_state());
    assert_eq!(a.entries(0, u64::MAX), b.entries(0, u64::MAX));
}

/// Replaying the records of any run of mutations gives the log they made.
#[test]
fn replay_is_exact() {
    let mut journal = Journal::new();
    let mut records: Vec<Vec<u8>> = Vec::new();
    let mut state: u64 = 11;
    let mut next = move |bound: u64| {
        state = state
            .wrapping_mul(6_364_136_223_846_793_005)
            .wrapping_add(1_442_695_040_888_963_407);
        (state >> 33) % bound
    };
    for step in 0..500u64 {
        let last = journal.index().last_index();
        let base = journal.index().snapshot_index();
        match next(5) {
            0 | 1 => {
                let batch: Vec<LogEntry> = (1..=next(4))
                    .map(|k| entry(step, last + k, &[step as u8]))
                    .collect();
                records.extend(journal.append(&batch).unwrap());
            }
            2 => {
                let from = base + 1 + next(last - base + 2);
                records.push(journal.truncate(from).unwrap());
            }
            3 => records.push(journal.set_hard_state(HardState {
                term: step,
                voted_for: Some(next(3)),
            })),
            _ => {
                let index = base + next(4);
                let term = journal.index().term_at(index).unwrap_or(step);
                let snap = Snapshot::with_config(index, term, vec![1, 2], vec![step as u8]);
                records.extend(journal.apply_snapshot(&snap));
            }
        }
        let mut replayed = Journal::new();
        for record in &records {
            replayed.replay(record).unwrap();
        }
        same(replayed.index(), journal.index());
    }
}

/// With no entry kept behind a snapshot, the records before it may go.
#[test]
fn records_before_a_snapshot_may_go() {
    let mut journal = Journal::new();
    let _ = journal.append(&[entry(1, 1, b"a"), entry(1, 2, b"b")]).unwrap();
    let _ = journal.set_hard_state(HardState {
        term: 4,
        voted_for: Some(2),
    });
    assert!(!journal.earlier_records_may_go());
    let kept = journal.apply_snapshot(&Snapshot::new(2, 1, b"s".to_vec()));
    assert_eq!(kept.len(), 2);
    assert!(journal.earlier_records_may_go());
    let mut replayed = Journal::new();
    for record in &kept {
        replayed.replay(record).unwrap();
    }
    same(replayed.index(), journal.index());
    // A stale snapshot writes nothing.
    assert!(journal
        .apply_snapshot(&Snapshot::new(2, 9, vec![]))
        .is_empty());
    // Records that do not fit the log so far are refused.
    assert!(replayed.replay(&encode_entry(&entry(1, 9, b"x"))).is_err());
    assert!(replayed.replay(&encode_truncate(0)).is_err());
    assert!(replayed.replay(&[77]).is_err());
    same(replayed.index(), journal.index());
}

/// An entry kept behind a snapshot needs its record: without the earlier ones it
/// is lost, so they may not go.
#[test]
fn records_of_a_kept_tail_may_not_go() {
    let mut journal = Journal::new();
    let _ = journal
        .append(&[entry(1, 1, b"a"), entry(1, 2, b"b"), entry(2, 3, b"c")])
        .unwrap();
    let records = journal.apply_snapshot(&Snapshot::new(2, 1, b"s".to_vec()));
    assert_eq!(journal.index().last_index(), 3);
    assert!(!journal.earlier_records_may_go());
    let mut replayed = Journal::new();
    for record in &records {
        replayed.replay(record).unwrap();
    }
    assert_eq!(replayed.index().last_index(), 2);
}

fn records<S: wal_db::WalStore>(log: &WalLog<S>) -> usize {
    log.wal.iter().unwrap().count()
}

/// Once a snapshot covers every entry, the records before it are gone from the log's
/// segments, and what is left recovers the same log.
#[test]
fn dropped_records_are_not_needed_for_recovery() {
    let dir = tempfile::tempdir().unwrap();
    {
        let mut log = WalLog::open_segmented(dir.path(), 64).unwrap();
        for index in 1..=40 {
            log.append(&[entry(1, index, b"payload")]).unwrap();
        }
        log.set_hard_state(HardState {
            term: 4,
            voted_for: Some(2),
        })
        .unwrap();
        assert_eq!(records(&log), 41);
        log.apply_snapshot(&Snapshot::with_config(40, 1, vec![1, 2], b"s".to_vec()))
            .unwrap();
        assert_eq!(records(&log), 2);
        log.append(&[entry(4, 41, b"after")]).unwrap();
        log.sync().unwrap();
    }
    let recovered = WalLog::open_segmented(dir.path(), 64).unwrap();
    assert_eq!(records(&recovered), 3);
    assert_eq!(recovered.snapshot_index(), 40);
    assert_eq!(recovered.snapshot().unwrap().config, vec![1, 2]);
    assert_eq!(recovered.last_index(), 41);
    assert_eq!(recovered.entry(41).unwrap().command, b"after");
    assert_eq!(recovered.term_at(40), Some(1));
    assert_eq!(recovered.hard_state().term, 4);
    assert_eq!(recovered.hard_state().voted_for, Some(2));
}

/// While entries are kept behind a snapshot their records stay, and they are recovered.
#[test]
fn the_records_of_a_kept_tail_are_recovered() {
    let dir = tempfile::tempdir().unwrap();
    {
        let mut log = WalLog::open_segmented(dir.path(), 64).unwrap();
        for index in 1..=40 {
            log.append(&[entry(1, index, b"payload")]).unwrap();
        }
        log.apply_snapshot(&Snapshot::new(30, 1, b"s".to_vec())).unwrap();
        assert_eq!(records(&log), 42);
        log.sync().unwrap();
    }
    let recovered = WalLog::open_segmented(dir.path(), 64).unwrap();
    assert_eq!(recovered.snapshot_index(), 30);
    assert_eq!(recovered.last_index(), 40);
    for index in 31..=40 {
        assert_eq!(recovered.entry(index), Some(entry(1, index, b"payload")));
    }
}
