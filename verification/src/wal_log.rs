//! The durable log format, and the logic of a log kept in a write-ahead log.
//!
//! The store is log-structured. Every mutation — an appended entry, a
//! hard-state update, a truncation, an installed snapshot — is a record
//! appended to a write-ahead log, which frames and checksums each record. An
//! in-memory index mirrors the current state for reads, and replaying the
//! records in order rebuilds it exactly. [`Journal`] holds that index and says
//! which records each mutation writes; carrying them to disk is the caller's
//! part.
//!
//! A record is a one-byte tag followed by little-endian fields:
//!
//! | Tag | Record | Layout after the tag |
//! |---|---|---|
//! | 1 | entry | term, index, kind byte, length, command |
//! | 2 | hard state | term, vote flag byte, vote |
//! | 3 | truncation | first index to remove |
//! | 4 | snapshot | index, term, number of voters, voters, length, data |

use crate::error::{decimal, Error, ErrorModel};
use crate::log::{LogModel, MemoryLog, RaftLog};
use crate::types::{
    copy_bytes, EntryKind, EntryModel, HardState, Index, LogEntry, NodeId, Snapshot, SnapshotModel,
    Term,
};
use vstd::bytes::{u64_from_le_bytes, u64_to_le_bytes};
use vstd::prelude::*;
use vstd::string::StringExecFns;

verus! {

/// Record tag for an appended entry.
pub const TAG_ENTRY: u8 = 1;

/// Record tag for a hard-state update.
pub const TAG_HARD_STATE: u8 = 2;

/// Record tag for a truncation to a given index.
pub const TAG_TRUNCATE: u8 = 3;

/// Record tag for an installed snapshot.
pub const TAG_SNAPSHOT: u8 = 4;

/// A decoded record.
#[derive(Debug)]
pub enum Decoded {
    /// An appended entry.
    Entry(LogEntry),
    /// A new hard state.
    HardState(HardState),
    /// The removal of every entry from the index on.
    Truncate(Index),
    /// An installed snapshot.
    Snapshot(Snapshot),
}

/// The mathematical content of a [`Decoded`] record.
#[verifier::ext_equal]
pub enum RecordModel {
    Entry(EntryModel),
    HardState(HardState),
    Truncate(Index),
    Snapshot(SnapshotModel),
}

impl View for Decoded {
    type V = RecordModel;

    open spec fn view(&self) -> RecordModel {
        match *self {
            Decoded::Entry(e) => RecordModel::Entry(e@),
            Decoded::HardState(h) => RecordModel::HardState(h),
            Decoded::Truncate(i) => RecordModel::Truncate(i),
            Decoded::Snapshot(s) => RecordModel::Snapshot(s@),
        }
    }
}

// ---- the byte format -----------------------------------------------------

/// A word as eight little-endian bytes.
pub open spec fn word(x: u64) -> Seq<u8> {
    vstd::bytes::spec_u64_to_le_bytes(x)
}

/// The byte for the kind of an entry.
pub open spec fn kind_code(kind: EntryKind) -> u8 {
    match kind {
        EntryKind::Normal => 0,
        EntryKind::Config => 1,
    }
}

/// The bytes of an entry record.
pub open spec fn entry_bytes(e: EntryModel) -> Seq<u8> {
    seq![TAG_ENTRY] + word(e.term) + word(e.index) + seq![kind_code(e.kind)] + word(
        e.command.len() as u64,
    ) + e.command
}

/// The bytes of a hard-state record.
pub open spec fn hard_state_bytes(h: HardState) -> Seq<u8> {
    match h.voted_for {
        Some(id) => seq![TAG_HARD_STATE] + word(h.term) + seq![1u8] + word(id),
        None => seq![TAG_HARD_STATE] + word(h.term) + seq![0u8] + word(0),
    }
}

/// The bytes of a truncation record.
pub open spec fn truncate_bytes(from: Index) -> Seq<u8> {
    seq![TAG_TRUNCATE] + word(from)
}

/// The bytes of a snapshot record.
pub open spec fn snapshot_bytes(s: SnapshotModel) -> Seq<u8> {
    seq![TAG_SNAPSHOT] + word(s.index) + word(s.term) + word(s.config.len() as u64)
        + crate::types::members_bytes(s.config) + word(s.data.len() as u64) + s.data
}

/// The bytes of a record.
pub open spec fn record_bytes(r: RecordModel) -> Seq<u8> {
    match r {
        RecordModel::Entry(e) => entry_bytes(e),
        RecordModel::HardState(h) => hard_state_bytes(h),
        RecordModel::Truncate(from) => truncate_bytes(from),
        RecordModel::Snapshot(s) => snapshot_bytes(s),
    }
}

/// The word at `offset`, if the record reaches that far.
pub open spec fn word_at(data: Seq<u8>, offset: int) -> Option<u64> {
    if offset + 8 <= data.len() {
        Some(vstd::bytes::spec_u64_from_le_bytes(data.subrange(offset, offset + 8)))
    } else {
        None
    }
}

/// The refusal of a record.
pub open spec fn refused(detail: Seq<char>) -> Result<RecordModel, ErrorModel> {
    Err(ErrorModel::Storage { context: "decode durable log record"@, detail })
}

/// What an entry record holds.
pub open spec fn parse_entry(data: Seq<u8>) -> Result<RecordModel, ErrorModel> {
    match (word_at(data, 1), word_at(data, 9)) {
        (Some(term), Some(index)) => if data.len() <= 17 {
            refused("entry truncated"@)
        } else if data[17] > 1 {
            refused("unknown entry kind "@ + crate::error::decimal_text(data[17] as nat))
        } else {
            match word_at(data, 18) {
                Some(len) => if 26 + len == data.len() {
                    Ok(
                        RecordModel::Entry(
                            EntryModel {
                                term,
                                index,
                                kind: if data[17] == 0 {
                                    EntryKind::Normal
                                } else {
                                    EntryKind::Config
                                },
                                command: data.skip(26),
                            },
                        ),
                    )
                } else {
                    refused("entry length mismatch"@)
                },
                None => refused("record truncated"@),
            }
        },
        _ => refused("record truncated"@),
    }
}

/// What a hard-state record holds. The vote counts only when its flag is one.
pub open spec fn parse_hard_state(data: Seq<u8>) -> Result<RecordModel, ErrorModel> {
    match word_at(data, 1) {
        Some(term) => if data.len() <= 9 {
            refused("hard-state truncated"@)
        } else {
            match word_at(data, 10) {
                Some(vote) => Ok(
                    RecordModel::HardState(
                        HardState {
                            term,
                            voted_for: if data[9] == 1 {
                                Some(vote)
                            } else {
                                None
                            },
                        },
                    ),
                ),
                None => refused("record truncated"@),
            }
        },
        None => refused("record truncated"@),
    }
}

/// What a truncation record holds.
pub open spec fn parse_truncate(data: Seq<u8>) -> Result<RecordModel, ErrorModel> {
    match word_at(data, 1) {
        Some(from) => Ok(RecordModel::Truncate(from)),
        None => refused("record truncated"@),
    }
}

/// What a snapshot record holds.
pub open spec fn parse_snapshot(data: Seq<u8>) -> Result<RecordModel, ErrorModel> {
    match (word_at(data, 1), word_at(data, 9), word_at(data, 17)) {
        (Some(index), Some(term), Some(count)) => match word_at(data, 25 + 8 * count) {
            Some(len) => if 33 + 8 * count + len == data.len() {
                Ok(
                    RecordModel::Snapshot(
                        SnapshotModel {
                            index,
                            term,
                            config: crate::types::members_from_bytes(
                                data.subrange(25, 25 + 8 * count),
                            ),
                            data: data.skip(33 + 8 * count),
                        },
                    ),
                )
            } else {
                refused("snapshot length mismatch"@)
            },
            None => refused("record truncated"@),
        },
        _ => refused("record truncated"@),
    }
}

/// What a record holds, or why it is refused: an unknown tag, a truncated
/// record, or a length that does not match.
pub open spec fn parse(data: Seq<u8>) -> Result<RecordModel, ErrorModel> {
    if data.len() == 0 {
        refused("empty record"@)
    } else if data[0] == TAG_ENTRY {
        parse_entry(data)
    } else if data[0] == TAG_HARD_STATE {
        parse_hard_state(data)
    } else if data[0] == TAG_TRUNCATE {
        parse_truncate(data)
    } else if data[0] == TAG_SNAPSHOT {
        parse_snapshot(data)
    } else {
        refused("unknown record tag "@ + crate::error::decimal_text(data[0] as nat))
    }
}

/// The lengths of a record fit their fields.
pub open spec fn encodable(r: RecordModel) -> bool {
    match r {
        RecordModel::Entry(e) => e.command.len() <= u64::MAX,
        RecordModel::Snapshot(s) => s.config.len() <= u64::MAX && s.data.len() <= u64::MAX,
        _ => true,
    }
}

/// Every record is read back as it was written.
pub proof fn law_records_round_trip(r: RecordModel)
    requires
        encodable(r),
    ensures
        parse(record_bytes(r)) == Ok::<RecordModel, ErrorModel>(r),
{
    vstd::bytes::lemma_auto_spec_u64_to_from_le_bytes();
    let data = record_bytes(r);
    match r {
        RecordModel::Entry(e) => {
            assert(data.subrange(1, 9) =~= word(e.term));
            assert(data.subrange(9, 17) =~= word(e.index));
            assert(data[17] == kind_code(e.kind));
            assert(data.subrange(18, 26) =~= word(e.command.len() as u64));
            assert(data.skip(26) =~= e.command);
        },
        RecordModel::HardState(h) => {
            assert(data.subrange(1, 9) =~= word(h.term));
            match h.voted_for {
                Some(id) => {
                    assert(data[9] == 1);
                    assert(data.subrange(10, 18) =~= word(id));
                },
                None => {
                    assert(data[9] == 0);
                },
            }
        },
        RecordModel::Truncate(from) => {
            assert(data.subrange(1, 9) =~= word(from));
        },
        RecordModel::Snapshot(s) => {
            let n: int = s.config.len() as int;
            crate::types::lemma_members_round_trip(s.config);
            assert(data.subrange(1, 9) =~= word(s.index));
            assert(data.subrange(9, 17) =~= word(s.term));
            assert(data.subrange(17, 25) =~= word(n as u64));
            assert(data.subrange(25, 25 + 8 * n) =~= crate::types::members_bytes(s.config));
            assert(data.subrange(25 + 8 * n, 33 + 8 * n) =~= word(s.data.len() as u64));
            assert(data.skip(33 + 8 * n) =~= s.data);
        },
    }
}

/// An entry or snapshot has one encoding: bytes that decode to one are the bytes
/// it encodes to.
pub proof fn law_records_are_canonical(data: Seq<u8>)
    ensures
        parse(data) matches Ok(r) ==> {
            r is Entry || r is Snapshot ==> record_bytes(r) == data && encodable(r)
        },
{
    vstd::bytes::lemma_auto_spec_u64_to_from_le_bytes();
    if let Ok(r) = parse(data) {
        match r {
            RecordModel::Entry(e) => {
                assert(word(e.term) == data.subrange(1, 9));
                assert(word(e.index) == data.subrange(9, 17));
                assert(word(e.command.len() as u64) == data.subrange(18, 26));
                assert(record_bytes(r) =~= data);
            },
            RecordModel::Snapshot(s) => {
                let n = word_at(data, 17)->0;
                let raw = data.subrange(25, 25 + 8 * n);
                assert(raw.len() == 8 * n);
                assert(s.config.len() == n);
                lemma_members_bytes_of(raw, n as nat);
                assert(word(s.index) == data.subrange(1, 9));
                assert(word(s.term) == data.subrange(9, 17));
                assert(word(n) == data.subrange(17, 25));
                assert(word(s.data.len() as u64) == data.subrange(25 + 8 * n, 33 + 8 * n));
                assert(record_bytes(r) =~= data);
            },
            _ => {},
        }
    }
}

/// Whole groups of bytes are the encoding of the ids read from them.
proof fn lemma_members_bytes_of(bytes: Seq<u8>, n: nat)
    requires
        bytes.len() == 8 * n,
    ensures
        crate::types::members_bytes(crate::types::members_from_bytes(bytes)) == bytes,
    decreases n,
{
    let ids = crate::types::members_from_bytes(bytes);
    assert(ids.len() == n);
    if n > 0 {
        let k: int = n - 1;
        let head = bytes.take(8 * k);
        let short = crate::types::members_from_bytes(head);
        lemma_members_bytes_of(head, k as nat);
        assert forall|i: int| 0 <= i < k implies short[i] == ids[i] by {
            assert(head.subrange(8 * i, 8 * i + 8) =~= bytes.subrange(8 * i, 8 * i + 8));
        }
        assert(ids.drop_last() =~= short);
        let tail = bytes.subrange(8 * k, 8 * k + 8);
        assert(vstd::bytes::spec_u64_to_le_bytes(ids.last()) == tail) by {
            vstd::bytes::lemma_auto_spec_u64_to_from_le_bytes();
            assert(ids.last() == vstd::bytes::spec_u64_from_le_bytes(tail));
        }
        assert(head + tail =~= bytes);
    } else {
        assert(crate::types::members_bytes(ids) =~= bytes);
    }
}

// ---- encoding ------------------------------------------------------------

/// Appends a word to the buffer.
fn put_word(buf: &mut Vec<u8>, x: u64)
    ensures
        final(buf)@ == old(buf)@ + word(x),
{
    let mut bytes = u64_to_le_bytes(x);
    buf.append(&mut bytes);
}

/// Appends raw bytes to the buffer.
fn put_bytes(buf: &mut Vec<u8>, bytes: &[u8])
    ensures
        final(buf)@ == old(buf)@ + bytes@,
{
    let mut copy = copy_bytes(bytes);
    buf.append(&mut copy);
}

/// Returns the on-disk byte for an entry kind.
#[must_use]
pub fn kind_byte(kind: EntryKind) -> (r: u8)
    ensures
        r == kind_code(kind),
{
    match kind {
        EntryKind::Normal => 0,
        EntryKind::Config => 1,
    }
}

/// Reads an entry kind from its on-disk byte.
pub fn kind_from_byte(byte: u8) -> (r: Result<EntryKind, Error>)
    ensures
        match r {
            Ok(kind) => kind_code(kind) == byte,
            Err(e) => byte > 1 && e@ == (ErrorModel::Storage {
                context: "decode durable log record"@,
                detail: "unknown entry kind "@ + crate::error::decimal_text(byte as nat),
            }),
        },
{
    if byte == 0 {
        Ok(EntryKind::Normal)
    } else if byte == 1 {
        Ok(EntryKind::Config)
    } else {
        let mut text = String::from_str("unknown entry kind ");
        let number = decimal(byte as u128);
        text.append(number.as_str());
        Err(Error::storage("decode durable log record", text.as_str()))
    }
}

/// Encodes an entry as a record.
#[must_use]
pub fn encode_entry(entry: &LogEntry) -> (r: Vec<u8>)
    ensures
        r@ == entry_bytes(entry@),
{
    let mut buf: Vec<u8> = Vec::new();
    buf.push(TAG_ENTRY);
    put_word(&mut buf, entry.term);
    put_word(&mut buf, entry.index);
    buf.push(kind_byte(entry.kind));
    put_word(&mut buf, entry.command.len() as u64);
    put_bytes(&mut buf, entry.command.as_slice());
    assert(buf@ =~= entry_bytes(entry@));
    buf
}

/// Encodes a hard state as a record.
#[must_use]
pub fn encode_hard_state(state: &HardState) -> (r: Vec<u8>)
    ensures
        r@ == hard_state_bytes(*state),
{
    let mut buf: Vec<u8> = Vec::new();
    buf.push(TAG_HARD_STATE);
    put_word(&mut buf, state.term);
    match state.voted_for {
        Some(id) => {
            buf.push(1);
            put_word(&mut buf, id);
        },
        None => {
            buf.push(0);
            put_word(&mut buf, 0);
        },
    }
    assert(buf@ =~= hard_state_bytes(*state));
    buf
}

/// Encodes a truncation as a record.
#[must_use]
pub fn encode_truncate(from: Index) -> (r: Vec<u8>)
    ensures
        r@ == truncate_bytes(from),
{
    let mut buf: Vec<u8> = Vec::new();
    buf.push(TAG_TRUNCATE);
    put_word(&mut buf, from);
    assert(buf@ =~= truncate_bytes(from));
    buf
}

/// Encodes a snapshot as a record.
#[must_use]
pub fn encode_snapshot(snapshot: &Snapshot) -> (r: Vec<u8>)
    ensures
        r@ == snapshot_bytes(snapshot@),
{
    let mut buf: Vec<u8> = Vec::new();
    buf.push(TAG_SNAPSHOT);
    put_word(&mut buf, snapshot.index);
    put_word(&mut buf, snapshot.term);
    put_word(&mut buf, snapshot.config.len() as u64);
    let ghost head = buf@;
    let mut i: usize = 0;
    proof {
        assert(head + crate::types::members_bytes(snapshot.config@.take(0)) =~= head);
    }
    while i < snapshot.config.len()
        invariant
            i <= snapshot.config@.len(),
            buf@ == head + crate::types::members_bytes(snapshot.config@.take(i as int)),
        decreases snapshot.config@.len() - i,
    {
        put_word(&mut buf, snapshot.config[i]);
        proof {
            let before = snapshot.config@.take(i as int);
            let after = snapshot.config@.take(i + 1);
            assert(after.drop_last() =~= before);
            assert(head + crate::types::members_bytes(after) =~= (head
                + crate::types::members_bytes(before)) + word(snapshot.config@[i as int]));
        }
        i = i + 1;
    }
    assert(snapshot.config@.take(i as int) =~= snapshot.config@);
    put_word(&mut buf, snapshot.data.len() as u64);
    put_bytes(&mut buf, snapshot.data.as_slice());
    assert(buf@ =~= snapshot_bytes(snapshot@));
    buf
}

// ---- decoding ------------------------------------------------------------

/// Reads a little-endian word at `offset`, bounds-checked.
pub fn read_u64(data: &[u8], offset: usize) -> (r: Result<u64, Error>)
    ensures
        match r {
            Ok(x) => word_at(data@, offset as int) == Some(x),
            Err(e) => word_at(data@, offset as int) is None && e@ == (ErrorModel::Storage {
                context: "decode durable log record"@,
                detail: "record truncated"@,
            }),
        },
{
    if data.len() < 8 || offset > data.len() - 8 {
        return Err(Error::storage("decode durable log record", "record truncated"));
    }
    Ok(u64_from_le_bytes(vstd::slice::slice_subrange(data, offset, offset + 8)))
}

/// Decodes an entry record.
fn decode_entry(data: &[u8]) -> (r: Result<Decoded, Error>)
    requires
        data@.len() > 0,
    ensures
        match r {
            Ok(d) => parse_entry(data@) == Ok::<RecordModel, ErrorModel>(d@),
            Err(e) => parse_entry(data@) == Err::<RecordModel, ErrorModel>(e@),
        },
{
    let term: Term = read_u64(data, 1)?;
    let index: Index = read_u64(data, 9)?;
    if data.len() <= 17 {
        return Err(Error::storage("decode durable log record", "entry truncated"));
    }
    let kind = kind_from_byte(data[17])?;
    let len: u64 = read_u64(data, 18)?;
    let rest: usize = data.len() - 26;
    if len != rest as u64 {
        return Err(Error::storage("decode durable log record", "entry length mismatch"));
    }
    let tail = vstd::slice::slice_subrange(data, 26, data.len());
    let entry = LogEntry { term, index, kind, command: copy_bytes(tail) };
    assert(entry@.command =~= data@.skip(26));
    Ok(Decoded::Entry(entry))
}

/// Decodes a hard-state record.
fn decode_hard_state(data: &[u8]) -> (r: Result<Decoded, Error>)
    requires
        data@.len() > 0,
    ensures
        match r {
            Ok(d) => parse_hard_state(data@) == Ok::<RecordModel, ErrorModel>(d@),
            Err(e) => parse_hard_state(data@) == Err::<RecordModel, ErrorModel>(e@),
        },
{
    let term: Term = read_u64(data, 1)?;
    if data.len() <= 9 {
        return Err(Error::storage("decode durable log record", "hard-state truncated"));
    }
    let flag: u8 = data[9];
    let vote: NodeId = read_u64(data, 10)?;
    let voted_for = if flag == 1 {
        Some(vote)
    } else {
        None
    };
    Ok(Decoded::HardState(HardState { term, voted_for }))
}

/// Decodes a snapshot record.
fn decode_snapshot(data: &[u8]) -> (r: Result<Decoded, Error>)
    requires
        data@.len() > 0,
    ensures
        match r {
            Ok(d) => parse_snapshot(data@) == Ok::<RecordModel, ErrorModel>(d@),
            Err(e) => parse_snapshot(data@) == Err::<RecordModel, ErrorModel>(e@),
        },
{
    let index: Index = read_u64(data, 1)?;
    let term: Term = read_u64(data, 9)?;
    let count: u64 = read_u64(data, 17)?;
    let mut config: Vec<NodeId> = Vec::new();
    let total: usize = data.len();
    let mut off: usize = 25;
    let mut read: u64 = 0;
    while read < count
        invariant
            read <= count,
            off == 25 + 8 * read,
            off <= total,
            total == data@.len(),
            word_at(data@, 1) == Some(index),
            word_at(data@, 9) == Some(term),
            word_at(data@, 17) == Some(count),
            config@.len() == read,
            forall|i: int|
                0 <= i < read ==> Some(#[trigger] config@[i]) == word_at(data@, 25 + 8 * i),
        decreases count - read,
    {
        let id: NodeId = read_u64(data, off)?;
        config.push(id);
        off = off + 8;
        read = read + 1;
    }
    let len: u64 = read_u64(data, off)?;
    let start: usize = off + 8;
    let rest: usize = total - start;
    if len != rest as u64 {
        return Err(Error::storage("decode durable log record", "snapshot length mismatch"));
    }
    let tail = vstd::slice::slice_subrange(data, start, data.len());
    let snapshot = Snapshot::with_config(index, term, config, copy_bytes(tail));
    proof {
        let raw = data@.subrange(25, 25 + 8 * count);
        let ids = crate::types::members_from_bytes(raw);
        assert forall|i: int| 0 <= i < count implies config@[i] == ids[i] by {
            assert(raw.subrange(8 * i, 8 * i + 8) =~= data@.subrange(25 + 8 * i, 33 + 8 * i));
        }
        assert(snapshot@.config =~= ids);
        assert(snapshot@.data =~= data@.skip(33 + 8 * count));
    }
    Ok(Decoded::Snapshot(snapshot))
}

/// Decodes a record.
///
/// An unknown tag, a truncated record or a length that does not match is
/// refused.
pub fn decode(data: &[u8]) -> (r: Result<Decoded, Error>)
    ensures
        match r {
            Ok(d) => parse(data@) == Ok::<RecordModel, ErrorModel>(d@),
            Err(e) => parse(data@) == Err::<RecordModel, ErrorModel>(e@),
        },
{
    if data.len() == 0 {
        return Err(Error::storage("decode durable log record", "empty record"));
    }
    let tag: u8 = data[0];
    if tag == TAG_ENTRY {
        decode_entry(data)
    } else if tag == TAG_HARD_STATE {
        decode_hard_state(data)
    } else if tag == TAG_TRUNCATE {
        let from: Index = read_u64(data, 1)?;
        Ok(Decoded::Truncate(from))
    } else if tag == TAG_SNAPSHOT {
        decode_snapshot(data)
    } else {
        let mut text = String::from_str("unknown record tag ");
        let number = decimal(tag as u128);
        text.append(number.as_str());
        Err(Error::storage("decode durable log record", text.as_str()))
    }
}

// ---- replaying and writing -----------------------------------------------

/// What replaying one record makes of a log, or why it is refused.
pub open spec fn replayed(log: LogModel, data: Seq<u8>) -> Result<LogModel, ErrorModel> {
    match parse(data) {
        Ok(RecordModel::Entry(e)) => if log.continued_by(seq![e]) {
            Ok(log.append(seq![e]))
        } else {
            Err(crate::log::append_refusal(log, seq![e]))
        },
        Ok(RecordModel::HardState(h)) => Ok(log.with_hard(h)),
        Ok(RecordModel::Truncate(from)) => if from >= 1 {
            Ok(log.truncate(from as int))
        } else {
            Err(
                ErrorModel::Storage {
                    context: "truncate log"@,
                    detail: "cannot truncate the sentinel at index 0"@,
                },
            )
        },
        Ok(RecordModel::Snapshot(s)) => Ok(log.compact(s)),
        Err(e) => Err(e),
    }
}

/// What replaying `records` in order, from an empty log, gives.
pub open spec fn recovered(records: Seq<Seq<u8>>) -> Result<LogModel, ErrorModel>
    decreases records.len(),
{
    if records.len() == 0 {
        Ok(LogModel::empty())
    } else {
        match recovered(records.drop_last()) {
            Ok(log) => replayed(log, records.last()),
            Err(e) => Err(e),
        }
    }
}

/// The records that appending `entries` writes: one each, in order.
pub open spec fn entry_records(entries: Seq<EntryModel>) -> Seq<Seq<u8>> {
    Seq::new(entries.len(), |i: int| entry_bytes(entries[i]))
}

/// The records that installing a snapshot writes: the snapshot, and after it the
/// hard state, so that the latest term and vote lie behind the snapshot.
pub open spec fn snapshot_records(snapshot: SnapshotModel, hard: HardState) -> Seq<Seq<u8>> {
    seq![snapshot_bytes(snapshot), hard_state_bytes(hard)]
}

/// A log recovered from records has contiguous indices.
pub proof fn law_recovered_logs_are_contiguous(records: Seq<Seq<u8>>)
    ensures
        recovered(records) matches Ok(log) ==> log.wf(),
    decreases records.len(),
{
    if records.len() > 0 {
        law_recovered_logs_are_contiguous(records.drop_last());
        if let Ok(log) = recovered(records.drop_last()) {
            lemma_replayed_is_contiguous(log, records.last());
        }
    }
}

/// Replaying a record keeps a log's indices contiguous.
proof fn lemma_replayed_is_contiguous(log: LogModel, data: Seq<u8>)
    requires
        log.wf(),
    ensures
        replayed(log, data) matches Ok(next) ==> next.wf(),
{
    let none = SnapshotModel { index: 0, term: 0, config: Seq::empty(), data: Seq::empty() };
    let nothing = Seq::<EntryModel>::empty();
    match parse(data) {
        Ok(RecordModel::Entry(e)) => {
            if log.continued_by(seq![e]) {
                crate::log::law_log_changes_keep_indices_contiguous(
                    log,
                    seq![e],
                    1,
                    log.hard,
                    none,
                );
            }
        },
        Ok(RecordModel::HardState(h)) => {
            crate::log::law_log_changes_keep_indices_contiguous(log, nothing, 1, h, none);
        },
        Ok(RecordModel::Truncate(from)) => {
            if from >= 1 {
                crate::log::law_log_changes_keep_indices_contiguous(
                    log,
                    nothing,
                    from as int,
                    log.hard,
                    none,
                );
            }
        },
        Ok(RecordModel::Snapshot(s)) => {
            crate::log::law_log_changes_keep_indices_contiguous(log, nothing, 1, log.hard, s);
        },
        Err(_) => {},
    }
}

/// Recovery is exact for appends: replaying the records of a batch after those of
/// the log gives the log with the batch.
pub proof fn law_recovery_is_exact_for_appends(
    records: Seq<Seq<u8>>,
    log: LogModel,
    entries: Seq<EntryModel>,
)
    requires
        recovered(records) == Ok::<LogModel, ErrorModel>(log),
        log.continued_by(entries),
        forall|i: int| 0 <= i < entries.len() ==> (#[trigger] entries[i]).command.len() <= u64::MAX,
    ensures
        recovered(records + entry_records(entries)) == Ok::<LogModel, ErrorModel>(
            log.append(entries),
        ),
    decreases entries.len(),
{
    let all = records + entry_records(entries);
    if entries.len() == 0 {
        assert(all =~= records);
        assert(log.append(entries).entries =~= log.entries);
    } else {
        let short = entries.drop_last();
        let e = entries.last();
        assert forall|i: int| 0 <= i < short.len() implies (#[trigger] short[i]).index
            == log.last_index() + 1 + i by {
            assert(short[i] == entries[i]);
        }
        assert forall|i: int| 0 <= i < short.len() implies (#[trigger] short[i]).command.len()
            <= u64::MAX by {
            assert(short[i] == entries[i]);
        }
        law_recovery_is_exact_for_appends(records, log, short);
        assert(all.drop_last() =~= records + entry_records(short));
        assert(all.last() == entry_bytes(e));
        law_records_round_trip(RecordModel::Entry(e));
        let before = log.append(short);
        assert(e.index == log.last_index() + 1 + (entries.len() - 1)) by {
            assert(entries[entries.len() - 1].index == log.last_index() + 1 + (entries.len() - 1));
        }
        assert(before.continued_by(seq![e]));
        assert(before.append(seq![e]).entries =~= log.append(entries).entries);
    }
}

/// Recovery is exact for truncations.
pub proof fn law_recovery_is_exact_for_truncations(
    records: Seq<Seq<u8>>,
    log: LogModel,
    from: Index,
)
    requires
        recovered(records) == Ok::<LogModel, ErrorModel>(log),
        from >= 1,
    ensures
        recovered(records.push(truncate_bytes(from))) == Ok::<LogModel, ErrorModel>(
            log.truncate(from as int),
        ),
{
    law_records_round_trip(RecordModel::Truncate(from));
    assert(records.push(truncate_bytes(from)).drop_last() =~= records);
}

/// Recovery is exact for hard states: the latest one written is the one
/// recovered.
pub proof fn law_recovery_is_exact_for_hard_states(
    records: Seq<Seq<u8>>,
    log: LogModel,
    hard: HardState,
)
    requires
        recovered(records) == Ok::<LogModel, ErrorModel>(log),
    ensures
        recovered(records.push(hard_state_bytes(hard))) == Ok::<LogModel, ErrorModel>(
            log.with_hard(hard),
        ),
{
    law_records_round_trip(RecordModel::HardState(hard));
    assert(records.push(hard_state_bytes(hard)).drop_last() =~= records);
}

/// Recovery is exact for snapshots: with every earlier record still there, the
/// compacted log comes back, tail and hard state included.
pub proof fn law_recovery_is_exact_for_snapshots(
    records: Seq<Seq<u8>>,
    log: LogModel,
    snapshot: SnapshotModel,
)
    requires
        recovered(records) == Ok::<LogModel, ErrorModel>(log),
        snapshot.config.len() <= u64::MAX,
        snapshot.data.len() <= u64::MAX,
    ensures
        recovered(records + snapshot_records(snapshot, log.hard)) == Ok::<LogModel, ErrorModel>(
            log.compact(snapshot),
        ),
{
    law_records_round_trip(RecordModel::Snapshot(snapshot));
    law_records_round_trip(RecordModel::HardState(log.hard));
    let one = records.push(snapshot_bytes(snapshot));
    assert(one.drop_last() =~= records);
    assert(recovered(one) == Ok::<LogModel, ErrorModel>(log.compact(snapshot)));
    let two = records + snapshot_records(snapshot, log.hard);
    assert(two.drop_last() =~= one);
    assert(two.last() == hard_state_bytes(log.hard));
    assert(log.compact(snapshot).with_hard(log.hard) == log.compact(snapshot));
}

/// Dropping every record before a snapshot's leaves the recovered log as it is,
/// provided the snapshot is no stale one and no entry was kept behind it.
pub proof fn law_records_before_a_snapshot_may_go(
    records: Seq<Seq<u8>>,
    log: LogModel,
    snapshot: SnapshotModel,
)
    requires
        recovered(records) == Ok::<LogModel, ErrorModel>(log),
        snapshot.config.len() <= u64::MAX,
        snapshot.data.len() <= u64::MAX,
        snapshot.index > log.base_index(),
        log.compact(snapshot).entries.len() == 0,
    ensures
        recovered(snapshot_records(snapshot, log.hard)) == recovered(
            records + snapshot_records(snapshot, log.hard),
        ),
{
    law_recovery_is_exact_for_snapshots(records, log, snapshot);
    law_records_round_trip(RecordModel::Snapshot(snapshot));
    law_records_round_trip(RecordModel::HardState(log.hard));
    let all = snapshot_records(snapshot, log.hard);
    assert(all.drop_last() =~= seq![snapshot_bytes(snapshot)]);
    assert(all.drop_last().drop_last() =~= Seq::<Seq<u8>>::empty());
    law_recovered_logs_are_contiguous(records);
    let fresh = LogModel::empty().compact(snapshot).with_hard(log.hard);
    assert(fresh.entries =~= log.compact(snapshot).entries);
    assert(fresh == log.compact(snapshot));
    reveal_with_fuel(recovered, 3);
}

/// The records of the latest snapshot give the whole log back by themselves.
pub open spec fn stands_alone(log: LogModel) -> bool {
    log.snapshot matches Some(snapshot) && recovered(snapshot_records(snapshot, log.hard)) == Ok::<
        LogModel,
        ErrorModel,
    >(log)
}

/// The records of a snapshot give the whole log back exactly if no entry is kept behind
/// it. Then, and only then, every record before them can be dropped.
pub proof fn law_when_a_snapshot_stands_alone(log: LogModel)
    requires
        log.wf(),
        log.snapshot matches Some(s) ==> s.config.len() <= u64::MAX && s.data.len() <= u64::MAX,
    ensures
        stands_alone(log) <==> log.snapshot is Some && log.entries.len() == 0,
{
    if let Some(snapshot) = log.snapshot {
        law_records_round_trip(RecordModel::Snapshot(snapshot));
        law_records_round_trip(RecordModel::HardState(log.hard));
        let all = snapshot_records(snapshot, log.hard);
        assert(all.drop_last() =~= seq![snapshot_bytes(snapshot)]);
        assert(all.drop_last().drop_last() =~= Seq::<Seq<u8>>::empty());
        let fresh = LogModel::empty().compact(snapshot).with_hard(log.hard);
        reveal_with_fuel(recovered, 3);
        assert(recovered(all) == Ok::<LogModel, ErrorModel>(fresh));
        assert(fresh.entries =~= Seq::<EntryModel>::empty());
        if log.entries.len() == 0 {
            assert(log.entries =~= fresh.entries);
            assert(fresh =~= log);
        }
    }
}

/// The state of a log kept in a write-ahead log.
///
/// Reads are served from the index. A mutation changes the index and returns the
/// records that must reach the write-ahead log, in order.
#[derive(Debug)]
pub struct Journal {
    index: MemoryLog,
}

impl View for Journal {
    type V = LogModel;

    closed spec fn view(&self) -> LogModel {
        self.index@
    }
}

impl Default for Journal {
    fn default() -> (r: Self)
        ensures
            r@ == LogModel::empty(),
            r@.wf(),
    {
        Journal { index: MemoryLog::new() }
    }
}

impl Journal {
    /// Creates the state of an empty write-ahead log.
    #[must_use]
    pub fn new() -> (r: Self)
        ensures
            r@ == LogModel::empty(),
            r@.wf(),
    {
        Self::default()
    }

    /// Returns the index, for reading.
    #[must_use]
    pub fn index(&self) -> (r: &MemoryLog)
        ensures
            r@ == self@,
    {
        &self.index
    }

    /// Replays one record read back from the write-ahead log.
    ///
    /// A record that does not decode, or does not fit the log so far, is refused
    /// and changes nothing.
    pub fn replay(&mut self, record: &[u8]) -> (r: Result<(), Error>)
        requires
            old(self)@.wf(),
        ensures
            final(self)@.wf(),
            match r {
                Ok(_) => replayed(old(self)@, record@) == Ok::<LogModel, ErrorModel>(final(self)@),
                Err(e) => replayed(old(self)@, record@) == Err::<LogModel, ErrorModel>(e@)
                    && final(self)@ == old(self)@,
            },
    {
        match decode(record)? {
            Decoded::Entry(entry) => {
                let mut batch: Vec<LogEntry> = Vec::new();
                batch.push(entry);
                assert(crate::types::entry_models(batch@) =~= seq![entry@]);
                self.index.append(batch.as_slice())
            },
            Decoded::HardState(state) => self.index.set_hard_state(state),
            Decoded::Truncate(from) => self.index.truncate(from),
            Decoded::Snapshot(snapshot) => self.index.apply_snapshot(&snapshot),
        }
    }

    /// Appends `entries` and returns their records.
    ///
    /// A batch that does not continue the log is refused before any record is
    /// made.
    pub fn append(&mut self, entries: &[LogEntry]) -> (r: Result<Vec<Vec<u8>>, Error>)
        requires
            old(self)@.wf(),
        ensures
            final(self)@.wf(),
            match r {
                Ok(records) => {
                    &&& old(self)@.continued_by(crate::types::entry_models(entries@))
                    &&& final(self)@ == old(self)@.append(crate::types::entry_models(entries@))
                    &&& record_models(records@) == entry_records(
                        crate::types::entry_models(entries@),
                    )
                },
                Err(e) => {
                    &&& !old(self)@.continued_by(crate::types::entry_models(entries@))
                    &&& final(self)@ == old(self)@
                    &&& e@ == crate::log::append_refusal(
                        old(self)@,
                        crate::types::entry_models(entries@),
                    )
                },
            },
    {
        self.index.append(entries)?;
        let mut records: Vec<Vec<u8>> = Vec::new();
        let ghost goal = entry_records(crate::types::entry_models(entries@));
        let mut i: usize = 0;
        while i < entries.len()
            invariant
                i <= entries@.len(),
                goal == entry_records(crate::types::entry_models(entries@)),
                records@.len() == i,
                forall|k: int| 0 <= k < i ==> (#[trigger] records@[k])@ == goal[k],
            decreases entries@.len() - i,
        {
            records.push(encode_entry(&entries[i]));
            i = i + 1;
        }
        assert(record_models(records@) =~= goal);
        Ok(records)
    }

    /// Removes every entry from `from` on and returns the record of it. Removing
    /// from index `0` on is refused.
    pub fn truncate(&mut self, from: Index) -> (r: Result<Vec<u8>, Error>)
        requires
            old(self)@.wf(),
        ensures
            final(self)@.wf(),
            match r {
                Ok(record) => from >= 1 && final(self)@ == old(self)@.truncate(from as int)
                    && record@ == truncate_bytes(from),
                Err(e) => from == 0 && final(self)@ == old(self)@ && e@ == (ErrorModel::Storage {
                    context: "truncate log"@,
                    detail: "cannot truncate the sentinel at index 0"@,
                }),
            },
    {
        self.index.truncate(from)?;
        Ok(encode_truncate(from))
    }

    /// Replaces the hard state and returns the record of it.
    pub fn set_hard_state(&mut self, state: HardState) -> (r: Vec<u8>)
        requires
            old(self)@.wf(),
        ensures
            final(self)@.wf(),
            final(self)@ == old(self)@.with_hard(state),
            r@ == hard_state_bytes(state),
    {
        let _ = self.index.set_hard_state(state);
        encode_hard_state(&state)
    }

    /// Compacts behind `snapshot` and returns the records of it: the snapshot and
    /// the hard state. A stale snapshot changes nothing and writes nothing.
    pub fn apply_snapshot(&mut self, snapshot: &Snapshot) -> (r: Vec<Vec<u8>>)
        requires
            old(self)@.wf(),
        ensures
            final(self)@.wf(),
            final(self)@ == old(self)@.compact(snapshot@),
            record_models(r@) == (if snapshot.index <= old(self)@.base_index() {
                Seq::empty()
            } else {
                snapshot_records(snapshot@, old(self)@.hard)
            }),
    {
        let mut records: Vec<Vec<u8>> = Vec::new();
        if snapshot.index <= self.index.snapshot_index() {
            assert(record_models(records@) =~= Seq::<Seq<u8>>::empty());
            return records;
        }
        let _ = self.index.apply_snapshot(snapshot);
        records.push(encode_snapshot(snapshot));
        records.push(encode_hard_state(&self.index.hard_state()));
        assert(record_models(records@) =~= snapshot_records(snapshot@, old(self)@.hard));
        records
    }

    /// Says whether the records before those of the latest snapshot can be dropped:
    /// there is one, and no entry is kept behind it.
    pub fn earlier_records_may_go(&self) -> (r: bool)
        requires
            self@.wf(),
        ensures
            r == (self@.snapshot is Some && self@.entries.len() == 0),
            (self@.snapshot matches Some(s) ==> s.config.len() <= u64::MAX && s.data.len()
                <= u64::MAX) ==> r == stands_alone(self@),
    {
        proof {
            if self@.snapshot matches Some(s) ==> s.config.len() <= u64::MAX && s.data.len()
                <= u64::MAX {
                law_when_a_snapshot_stands_alone(self@);
            }
        }
        let base: Index = self.index.snapshot_index();
        base > 0 && self.index.last_index() == base
    }
}

/// The bytes of a list of records.
pub open spec fn record_models(records: Seq<Vec<u8>>) -> Seq<Seq<u8>> {
    Seq::new(records.len(), |i: int| records[i]@)
}

} // verus!
