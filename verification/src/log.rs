//! The log-storage seam and its in-memory implementation.
//!
//! [`RaftLog`] is the boundary between the protocol and where the log actually
//! lives. The node reads through it and writes through it, and treats a
//! returned `Ok` from [`sync`](RaftLog::sync) as the durability point. What a
//! log holds is its [`LogModel`]: the snapshot that stands for a compacted
//! prefix, the entries after it, and the hard state.

use crate::error::{decimal, Error, ErrorModel};
use crate::types::{
    clone_entries, EntryModel, HardState, Index, LogEntry, Snapshot, SnapshotModel, Term,
};
use vstd::prelude::*;
use vstd::string::StringExecFns;

verus! {

/// What a log holds.
#[verifier::ext_equal]
pub struct LogModel {
    /// The snapshot subsuming the entries that are gone, if there is one.
    pub snapshot: Option<SnapshotModel>,
    /// The entries after the snapshot, in index order.
    pub entries: Seq<EntryModel>,
    /// The persisted term and vote.
    pub hard: HardState,
}

impl LogModel {
    /// The log of a node that has never run.
    pub open spec fn empty() -> LogModel {
        LogModel { snapshot: None, entries: Seq::empty(), hard: HardState::initial() }
    }

    /// Index of the last entry the snapshot covers, `0` without one.
    pub open spec fn base_index(self) -> int {
        match self.snapshot {
            Some(s) => s.index as int,
            None => 0,
        }
    }

    /// Term of the last entry the snapshot covers, `0` without one.
    pub open spec fn base_term(self) -> Term {
        match self.snapshot {
            Some(s) => s.term,
            None => 0,
        }
    }

    /// Indices are contiguous from the base on, and representable.
    pub open spec fn wf(self) -> bool {
        &&& self.snapshot matches Some(s) ==> s.index >= 1
        &&& forall|i: int|
            0 <= i < self.entries.len() ==> (#[trigger] self.entries[i]).index == self.base_index()
                + i + 1
        &&& self.last_index() <= u64::MAX
    }

    /// Index of the last entry.
    pub open spec fn last_index(self) -> int {
        self.base_index() + self.entries.len()
    }

    /// Term of the last entry.
    pub open spec fn last_term(self) -> Term {
        if self.entries.len() == 0 {
            self.base_term()
        } else {
            self.entries.last().term
        }
    }

    /// Says whether the entry at `index` is still held.
    pub open spec fn holds(self, index: int) -> bool {
        self.base_index() < index <= self.last_index()
    }

    /// The entry at `index`, where it is held.
    pub open spec fn at(self, index: int) -> EntryModel {
        self.entries[index - self.base_index() - 1]
    }

    /// The entry at `index`, if it is held.
    pub open spec fn entry(self, index: int) -> Option<EntryModel> {
        if self.holds(index) {
            Some(self.at(index))
        } else {
            None
        }
    }

    /// The term at `index`, if the log knows it: the sentinel, the snapshot
    /// boundary and every entry held have one.
    pub open spec fn term_at(self, index: int) -> Option<Term> {
        if index == 0 {
            Some(0)
        } else if index == self.base_index() {
            Some(self.base_term())
        } else if self.holds(index) {
            Some(self.at(index).term)
        } else {
            None
        }
    }

    /// The entries held whose index lies in `[from, to]`.
    pub open spec fn between(self, from: int, to: int) -> Seq<EntryModel> {
        let n = self.entries.len() as int;
        let lo = clamp(from - self.base_index() - 1, 0, n);
        let hi = clamp(to - self.base_index(), lo, n);
        self.entries.subrange(lo, hi)
    }

    /// `entries` continue the log without gap or overlap.
    pub open spec fn continued_by(self, entries: Seq<EntryModel>) -> bool {
        &&& forall|i: int|
            0 <= i < entries.len() ==> (#[trigger] entries[i]).index == self.last_index() + 1 + i
        &&& self.last_index() + entries.len() <= u64::MAX
    }

    /// The log with `entries` at its end.
    pub open spec fn append(self, entries: Seq<EntryModel>) -> LogModel {
        LogModel { entries: self.entries + entries, ..self }
    }

    /// The log without the entries whose index is `from` or more.
    pub open spec fn truncate(self, from: int) -> LogModel {
        LogModel {
            entries: self.entries.take(
                clamp(from - self.base_index() - 1, 0, self.entries.len() as int),
            ),
            ..self
        }
    }

    /// The log with another hard state.
    pub open spec fn with_hard(self, hard: HardState) -> LogModel {
        LogModel { hard, ..self }
    }

    /// The log compacted behind `snapshot`.
    ///
    /// A snapshot at or before the present base changes nothing. Otherwise the
    /// entries it covers go; those after it stay if the log agrees with the
    /// snapshot at its last entry, and go too if it does not.
    pub open spec fn compact(self, snapshot: SnapshotModel) -> LogModel {
        if snapshot.index <= self.base_index() {
            self
        } else {
            LogModel {
                snapshot: Some(snapshot),
                entries: if self.holds(snapshot.index as int) && self.at(
                    snapshot.index as int,
                ).term == snapshot.term {
                    self.entries.skip(snapshot.index - self.base_index())
                } else {
                    Seq::empty()
                },
                ..self
            }
        }
    }
}

/// `x` moved into `[low, high]`.
pub open spec fn clamp(x: int, low: int, high: int) -> int {
    if x < low {
        low
    } else if x > high {
        high
    } else {
        x
    }
}

/// Every change keeps a log's indices contiguous.
pub proof fn law_log_changes_keep_indices_contiguous(
    log: LogModel,
    entries: Seq<EntryModel>,
    from: int,
    hard: HardState,
    snapshot: SnapshotModel,
)
    requires
        log.wf(),
        log.continued_by(entries),
        1 <= from,
    ensures
        log.append(entries).wf(),
        log.truncate(from).wf(),
        log.with_hard(hard).wf(),
        log.compact(snapshot).wf(),
{
    let a = log.append(entries);
    assert forall|i: int| 0 <= i < a.entries.len() implies (#[trigger] a.entries[i]).index
        == a.base_index() + i + 1 by {
        if i >= log.entries.len() {
            assert(a.entries[i] == entries[i - log.entries.len()]);
        }
    }
    let c = log.compact(snapshot);
    if snapshot.index > log.base_index() {
        assert forall|i: int| 0 <= i < c.entries.len() implies (#[trigger] c.entries[i]).index
            == c.base_index() + i + 1 by {
            assert(c.entries[i] == log.entries[i + snapshot.index - log.base_index()]);
        }
    }
}

/// What was appended is read back, and nothing before it changes.
pub proof fn law_append_is_read_back(log: LogModel, entries: Seq<EntryModel>, index: int)
    requires
        log.wf(),
        log.continued_by(entries),
    ensures
        log.append(entries).last_index() == log.last_index() + entries.len(),
        log.last_index() < index <= log.last_index() + entries.len() ==> log.append(entries).entry(
            index,
        ) == Some(entries[index - log.last_index() - 1]),
        index <= log.last_index() ==> log.append(entries).entry(index) == log.entry(index),
        index <= log.last_index() ==> log.append(entries).term_at(index) == log.term_at(index),
{
}

/// Truncation removes the tail and nothing else; past the end it does nothing.
pub proof fn law_truncate_removes_the_tail(log: LogModel, from: int, index: int)
    requires
        log.wf(),
        1 <= from,
    ensures
        index < from ==> log.truncate(from).entry(index) == log.entry(index),
        index >= from ==> log.truncate(from).entry(index) is None,
        from > log.last_index() ==> log.truncate(from) == log,
        log.truncate(from).hard == log.hard,
        log.truncate(from).snapshot == log.snapshot,
{
    if from > log.last_index() {
        assert(log.truncate(from).entries =~= log.entries);
    }
}

/// Compaction keeps the term at the snapshot's index readable, never moves the
/// base backwards, keeps every later entry of a log that agrees with it and none of
/// one that does not. A stale snapshot changes nothing.
pub proof fn law_compaction_keeps_the_boundary(log: LogModel, snapshot: SnapshotModel, index: int)
    requires
        log.wf(),
    ensures
        log.compact(snapshot).base_index() >= log.base_index(),
        log.compact(snapshot).hard == log.hard,
        snapshot.index > log.base_index() ==> {
            &&& log.compact(snapshot).snapshot == Some(snapshot)
            &&& log.compact(snapshot).term_at(snapshot.index as int) == Some(snapshot.term)
            &&& index <= snapshot.index ==> log.compact(snapshot).entry(index) is None
            &&& log.entry(snapshot.index as int) is Some && log.term_at(snapshot.index as int)
                == Some(snapshot.term) && index > snapshot.index ==> log.compact(snapshot).entry(
                index,
            ) == log.entry(index)
            &&& log.entry(snapshot.index as int) is None || log.term_at(snapshot.index as int)
                != Some(snapshot.term) ==> log.compact(snapshot).entry(index) is None
                && log.compact(snapshot).last_index() == snapshot.index
        },
        snapshot.index <= log.base_index() ==> log.compact(snapshot) == log,
{
}

/// What a log knows of each index: the sentinel has term zero, the last index that the
/// snapshot covers has the snapshot's term, an entry held is where it says it is and has
/// its own, and no other index has one. The last term is the one at the last index.
pub proof fn law_what_a_log_knows_of_an_index(log: LogModel, index: int)
    requires
        log.wf(),
    ensures
        log.term_at(0) == Some(0u64),
        log.snapshot matches Some(s) ==> log.term_at(s.index as int) == Some(s.term) && log.entry(
            s.index as int,
        ) is None && log.last_index() == s.index + log.entries.len(),
        log.snapshot is None ==> log.last_index() == log.entries.len(),
        log.entry(index) matches Some(e) ==> e.index == index && log.term_at(index) == Some(e.term)
            && log.entries.contains(e),
        forall|i: int|
            0 <= i < log.entries.len() ==> log.entry((#[trigger] log.entries[i]).index as int)
                == Some(log.entries[i]),
        index > log.last_index() || index < 0 ==> log.term_at(index) is None,
        0 < index < log.base_index() ==> log.term_at(index) is None,
        log.term_at(log.last_index()) == Some(log.last_term()),
{
    if log.holds(index) {
        assert(log.at(index) == log.entries[index - log.base_index() - 1]);
    }
}

/// A range of a log is exactly the entries it holds whose index lies in it, in order.
pub proof fn law_a_range_is_what_lies_in_it(log: LogModel, from: int, to: int, index: int)
    requires
        log.wf(),
    ensures
        forall|i: int|
            0 <= i < log.between(from, to).len() ==> {
                let e = #[trigger] log.between(from, to)[i];
                from <= e.index <= to && log.entry(e.index as int) == Some(e)
            },
        forall|i: int, j: int|
            0 <= i < j < log.between(from, to).len() ==> (#[trigger] log.between(
                from,
                to,
            )[i]).index < (#[trigger] log.between(from, to)[j]).index,
        from <= index <= to ==> (log.entry(index) matches Some(e) ==> log.between(
            from,
            to,
        ).contains(e)),
{
    let run = log.between(from, to);
    let n = log.entries.len() as int;
    let lo = clamp(from - log.base_index() - 1, 0, n);
    assert forall|i: int| 0 <= i < run.len() implies #[trigger] run[i] == log.entries[lo + i] by {}
    if from <= index <= to && log.holds(index) {
        let at = index - log.base_index() - 1;
        assert(run[at - lo] == log.at(index));
    }
}

/// Storage for a node's persistent state: its log entries, the snapshot that
/// subsumes a prefix of them, and its hard state.
///
/// Indices are 1-based and contiguous. Index `0` is the sentinel "before the
/// first entry", with term `0`.
///
/// A backend may buffer writes, but once [`sync`](RaftLog::sync) returns `Ok`,
/// every preceding write must be durable. The node always syncs before emitting
/// any message that depends on that state.
///
/// The contracts say what a successful call does, and that misuse is refused
/// without effect. Whether a backend can fail otherwise is up to it:
/// [`reliable`](RaftLog::reliable) says of one that it never does, and
/// [`failure`](RaftLog::failure) is the error that a call failed with.
pub trait RaftLog {
    /// What the log holds.
    open spec fn state(&self) -> LogModel {
        LogModel::empty()
    }

    /// What would be recovered after a crash.
    open spec fn durable(&self) -> LogModel {
        LogModel::empty()
    }

    /// The backend refuses nothing but misuse.
    open spec fn reliable(&self) -> bool {
        false
    }

    /// The error with which the backend last failed on a call that was no misuse.
    open spec fn failure(&self) -> ErrorModel {
        ErrorModel::Storage { context: Seq::empty(), detail: Seq::empty() }
    }

    /// Returns the index of the last entry, or `0` if the log is empty.
    fn last_index(&self) -> (r: Index)
        requires
            self.state().wf(),
        ensures
            r == self.state().last_index(),
    ;

    /// Returns the term of the last entry, or `0` if the log is empty.
    fn last_term(&self) -> (r: Term)
        requires
            self.state().wf(),
        ensures
            r == self.state().last_term(),
    ;

    /// Returns the term of the entry at `index`: `Some(0)` for the sentinel, the
    /// term of an entry held or of the snapshot boundary, `None` otherwise.
    fn term_at(&self, index: Index) -> (r: Option<Term>)
        requires
            self.state().wf(),
        ensures
            r == self.state().term_at(index as int),
    ;

    /// Returns the entry at `index`, or `None` if it is not held.
    fn entry(&self, index: Index) -> (r: Option<LogEntry>)
        requires
            self.state().wf(),
        ensures
            match r {
                Some(e) => self.state().entry(index as int) == Some(e@),
                None => self.state().entry(index as int) is None,
            },
    ;

    /// Returns the entries held in the inclusive range `[from, to]`.
    fn entries(&self, from: Index, to: Index) -> (r: Vec<LogEntry>)
        requires
            self.state().wf(),
        ensures
            crate::types::entry_models(r@) == self.state().between(from as int, to as int),
    {
        let ghost log = self.state();
        let base: Index = self.snapshot_index();
        let last: Index = self.last_index();
        let mut out: Vec<LogEntry> = Vec::new();
        let stop: Index = if to < last {
            to
        } else {
            last
        };
        let mut at: Index = if from > base {
            from
        } else if base < stop {
            base + 1
        } else {
            stop
        };
        if base >= stop || at > stop {
            assert(crate::types::entry_models(out@) =~= log.between(from as int, to as int));
            return out;
        }
        let ghost first = at as int;
        let ghost whole = log.between(from as int, to as int);
        let mut more: bool = true;
        while more
            invariant
                log == self.state(),
                log.wf(),
                base == log.base_index(),
                last == log.last_index(),
                base < first <= stop <= last,
                first <= at <= stop,
                more ==> out@.len() == at - first,
                !more ==> out@.len() == stop + 1 - first,
                whole == log.between(from as int, to as int),
                whole.len() == stop + 1 - first,
                forall|k: int|
                    0 <= k < whole.len() ==> #[trigger] whole[k] == log.at(first + k),
                forall|k: int| 0 <= k < out@.len() ==> (#[trigger] out@[k])@ == whole[k],
            decreases stop - at + (if more { 1int } else { 0int }),
        {
            if let Some(e) = self.entry(at) {
                out.push(e);
            }
            if at < stop {
                at = at + 1;
            } else {
                more = false;
            }
        }
        assert(crate::types::entry_models(out@) =~= whole);
        out
    }

    /// Appends `entries` to the end of the log.
    ///
    /// The first entry's index must be exactly one past the last and the entries
    /// must be contiguous; a gap or overlap is refused and nothing changes.
    fn append(&mut self, entries: &[LogEntry]) -> (r: Result<(), Error>)
        requires
            old(self).state().wf(),
        ensures
            final(self).state().wf(),
            final(self).reliable() == old(self).reliable(),
            r is Ok ==> old(self).state().continued_by(crate::types::entry_models(entries@))
                && final(self).state() == old(self).state().append(
                crate::types::entry_models(entries@),
            ),
            !old(self).state().continued_by(crate::types::entry_models(entries@)) ==> r is Err
                && final(self).state() == old(self).state(),
            old(self).reliable() && old(self).state().continued_by(
                crate::types::entry_models(entries@),
            ) ==> r is Ok,
            r matches Err(e) ==> e@ is Storage && (old(self).state().continued_by(
                crate::types::entry_models(entries@),
            ) ==> e@ == final(self).failure()),
    ;

    /// Removes every entry whose index is `>= from`.
    ///
    /// The sentinel at index `0` cannot be removed: `from == 0` is refused.
    fn truncate(&mut self, from: Index) -> (r: Result<(), Error>)
        requires
            old(self).state().wf(),
        ensures
            final(self).state().wf(),
            final(self).reliable() == old(self).reliable(),
            r is Ok ==> from >= 1 && final(self).state() == old(self).state().truncate(from as int),
            from == 0 ==> r is Err && final(self).state() == old(self).state(),
            old(self).reliable() && from >= 1 ==> r is Ok,
            r matches Err(e) ==> e@ is Storage && (from >= 1 ==> e@ == final(self).failure()),
    ;

    /// Returns the persisted term and vote.
    fn hard_state(&self) -> (r: HardState)
        requires
            self.state().wf(),
        ensures
            r == self.state().hard,
    ;

    /// Persists `state` as the new hard state.
    fn set_hard_state(&mut self, state: HardState) -> (r: Result<(), Error>)
        requires
            old(self).state().wf(),
        ensures
            final(self).state().wf(),
            final(self).reliable() == old(self).reliable(),
            r is Ok ==> final(self).state() == old(self).state().with_hard(state),
            old(self).reliable() ==> r is Ok,
            r matches Err(e) ==> e@ is Storage && e@ == final(self).failure(),
    ;

    /// Flushes all preceding writes to durable storage.
    fn sync(&mut self) -> (r: Result<(), Error>)
        requires
            old(self).state().wf(),
        ensures
            final(self).state() == old(self).state(),
            final(self).reliable() == old(self).reliable(),
            r is Ok ==> final(self).durable() == final(self).state(),
            old(self).reliable() ==> r is Ok,
            r matches Err(e) ==> e@ is Storage && e@ == final(self).failure(),
    ;

    /// Returns the index of the last entry the snapshot covers, `0` without one.
    fn snapshot_index(&self) -> (r: Index)
        requires
            self.state().wf(),
        ensures
            r == self.state().base_index(),
    ;

    /// Returns the snapshot the log was last compacted behind, if any.
    fn snapshot(&self) -> (r: Option<Snapshot>)
        requires
            self.state().wf(),
        ensures
            match r {
                Some(s) => self.state().snapshot == Some(s@),
                None => self.state().snapshot is None,
            },
    ;

    /// Compacts the log behind `snapshot`. A snapshot at or before the present
    /// one is stale and changes nothing.
    fn apply_snapshot(&mut self, snapshot: &Snapshot) -> (r: Result<(), Error>)
        requires
            old(self).state().wf(),
        ensures
            final(self).state().wf(),
            final(self).reliable() == old(self).reliable(),
            r is Ok ==> final(self).state() == old(self).state().compact(snapshot@),
            old(self).reliable() ==> r is Ok,
            r matches Err(e) ==> e@ is Storage && e@ == final(self).failure(),
    ;
}

/// An in-memory [`RaftLog`] backed by a vector.
///
/// Nothing is durable across a process restart: it is for tests, examples and
/// the single-node path, and for the index of a durable log. Its operations
/// never fail except on a misuse that would corrupt the log.
#[derive(Debug)]
pub struct MemoryLog {
    snapshot: Option<Snapshot>,
    entries: Vec<LogEntry>,
    hard: HardState,
}

impl View for MemoryLog {
    type V = LogModel;

    closed spec fn view(&self) -> LogModel {
        LogModel {
            snapshot: match self.snapshot {
                Some(s) => Some(s@),
                None => None,
            },
            entries: crate::types::entry_models(self.entries@),
            hard: self.hard,
        }
    }
}

impl Clone for MemoryLog {
    fn clone(&self) -> (r: Self)
        ensures
            r@ == self@,
    {
        let snapshot = match &self.snapshot {
            Some(s) => Some(s.clone()),
            None => None,
        };
        MemoryLog { snapshot, entries: clone_entries(self.entries.as_slice()), hard: self.hard }
    }
}

impl Default for MemoryLog {
    fn default() -> (r: Self)
        ensures
            r@ == LogModel::empty(),
            r@.wf(),
    {
        let r = MemoryLog { snapshot: None, entries: Vec::new(), hard: HardState::default() };
        assert(r@.entries =~= Seq::<EntryModel>::empty());
        r
    }
}

/// The text refusing a batch that starts at `got` instead of `expected`.
pub open spec fn gap_text(expected: nat, got: nat) -> Seq<char> {
    "non-contiguous append: expected index "@ + crate::error::decimal_text(expected) + ", got "@
        + crate::error::decimal_text(got)
}

/// The error for a batch of entries that does not continue `log`.
pub open spec fn append_refusal(log: LogModel, entries: Seq<EntryModel>) -> ErrorModel {
    ErrorModel::Storage {
        context: "append entries"@,
        detail: if entries[0].index != log.last_index() + 1 {
            gap_text((log.last_index() + 1) as nat, entries[0].index as nat)
        } else {
            "entries within the batch are not contiguous"@
        },
    }
}

impl MemoryLog {
    /// Creates an empty in-memory log.
    #[must_use]
    pub fn new() -> (r: Self)
        ensures
            r@ == LogModel::empty(),
            r@.wf(),
    {
        Self::default()
    }

    /// Returns the number of entries currently stored.
    #[must_use]
    pub fn len(&self) -> (r: usize)
        ensures
            r == self@.entries.len(),
    {
        self.entries.len()
    }

    /// Returns `true` if the log holds no entries.
    #[must_use]
    pub fn is_empty(&self) -> (r: bool)
        ensures
            r == (self@.entries.len() == 0),
    {
        self.entries.len() == 0
    }

    /// Index of the last entry the snapshot covers.
    fn base(&self) -> (r: Index)
        ensures
            r == self@.base_index(),
    {
        match &self.snapshot {
            Some(s) => s.index,
            None => 0,
        }
    }

    /// The position of `index` among the entries held.
    fn slot(&self, index: Index) -> (r: Option<usize>)
        requires
            self@.wf(),
        ensures
            match r {
                Some(i) => self@.holds(index as int) && i == index - self@.base_index() - 1,
                None => !self@.holds(index as int),
            },
    {
        let base: Index = self.base();
        let held: u64 = self.entries.len() as u64;
        if index > base && index - base <= held {
            let i: usize = (index - base - 1) as usize;
            Some(i)
        } else {
            None
        }
    }
}

/// Says whether each entry's index is one past its predecessor's.
fn batch_is_contiguous(entries: &[LogEntry]) -> (r: bool)
    requires
        entries@.len() > 0,
    ensures
        r == (forall|i: int|
            0 <= i < entries@.len() ==> (#[trigger] entries@[i]).index == entries@[0].index + i),
{
    let mut i: usize = 1;
    while i < entries.len()
        invariant
            1 <= i <= entries@.len(),
            forall|k: int| 0 <= k < i ==> (#[trigger] entries@[k]).index == entries@[0].index + k,
        decreases entries@.len() - i,
    {
        let before: Index = entries[i - 1].index;
        assert(entries@[i - 1].index == entries@[0].index + (i - 1));
        if before == u64::MAX || entries[i].index != before + 1 {
            assert(entries@[i as int].index != entries@[0].index + i);
            return false;
        }
        i = i + 1;
    }
    true
}

impl RaftLog for MemoryLog {
    open spec fn state(&self) -> LogModel {
        self@
    }

    /// What a node over this log recovers after a crash is what the log holds. The
    /// log itself does not outlive the process.
    open spec fn durable(&self) -> LogModel {
        self@
    }

    open spec fn reliable(&self) -> bool {
        true
    }

    fn last_index(&self) -> Index {
        self.base() + self.entries.len() as u64
    }

    fn last_term(&self) -> Term {
        let n: usize = self.entries.len();
        if n == 0 {
            match &self.snapshot {
                Some(s) => s.term,
                None => 0,
            }
        } else {
            self.entries[n - 1].term
        }
    }

    fn term_at(&self, index: Index) -> Option<Term> {
        if index == 0 {
            return Some(0);
        }
        if let Some(s) = &self.snapshot {
            if index == s.index {
                return Some(s.term);
            }
        }
        match self.slot(index) {
            Some(i) => Some(self.entries[i].term),
            None => None,
        }
    }

    fn entry(&self, index: Index) -> Option<LogEntry> {
        match self.slot(index) {
            Some(i) => Some(self.entries[i].clone()),
            None => None,
        }
    }

    fn append(&mut self, entries: &[LogEntry]) -> (r: Result<(), Error>)
        ensures
            r matches Err(e) ==> e@ == append_refusal(
                old(self)@,
                crate::types::entry_models(entries@),
            ),
    {
        let ghost models = crate::types::entry_models(entries@);
        if entries.len() == 0 {
            assert(models =~= Seq::<EntryModel>::empty());
            assert(self@.append(models).entries =~= self@.entries);
            return Ok(());
        }
        let last: Index = self.last_index();
        assert(models[0] == entries@[0]@);
        if last == u64::MAX || entries[0].index != last + 1 {
            let mut text = String::from_str("non-contiguous append: expected index ");
            let expected = decimal(last as u128 + 1);
            let got = decimal(entries[0].index as u128);
            text.append(expected.as_str());
            text.append(", got ");
            text.append(got.as_str());
            assert(!self@.continued_by(models));
            return Err(Error::storage("append entries", text.as_str()));
        }
        if !batch_is_contiguous(entries) {
            proof {
                let i = choose|i: int|
                    0 <= i < entries@.len() && (#[trigger] entries@[i]).index != entries@[0].index
                        + i;
                assert(models[i].index != self@.last_index() + 1 + i);
            }
            return Err(
                Error::storage("append entries", "entries within the batch are not contiguous"),
            );
        }
        let ghost before = self.entries@;
        proof {
            assert forall|i: int| 0 <= i < models.len() implies (#[trigger] models[i]).index
                == self@.last_index() + 1 + i by {
                assert(models[i] == entries@[i]@);
            }
            let k = entries@.len() - 1;
            assert(models[k].index <= u64::MAX);
            law_log_changes_keep_indices_contiguous(
                self@,
                models,
                1,
                self@.hard,
                SnapshotModel { index: 0, term: 0, config: Seq::empty(), data: Seq::empty() },
            );
        }
        let mut tail = clone_entries(entries);
        let ghost added = tail@;
        self.entries.append(&mut tail);
        proof {
            assert(crate::types::entry_models(before + added) =~= crate::types::entry_models(before)
                + crate::types::entry_models(added));
        }
        Ok(())
    }

    fn truncate(&mut self, from: Index) -> (r: Result<(), Error>)
        ensures
            r matches Err(e) ==> e@ == (ErrorModel::Storage {
                context: "truncate log"@,
                detail: "cannot truncate the sentinel at index 0"@,
            }),
    {
        if from == 0 {
            return Err(Error::storage("truncate log", "cannot truncate the sentinel at index 0"));
        }
        let base: Index = self.base();
        let held: u64 = self.entries.len() as u64;
        let ghost before = self@;
        if from <= base {
            self.entries.truncate(0);
            assert(self@ =~= before.truncate(from as int));
        } else if from - base - 1 < held {
            let keep: usize = (from - base - 1) as usize;
            self.entries.truncate(keep);
            assert(self@ =~= before.truncate(from as int));
        } else {
            assert(self@ =~= before.truncate(from as int));
        }
        Ok(())
    }

    fn hard_state(&self) -> HardState {
        self.hard
    }

    fn set_hard_state(&mut self, state: HardState) -> Result<(), Error> {
        self.hard = state;
        Ok(())
    }

    fn sync(&mut self) -> Result<(), Error> {
        Ok(())
    }

    fn snapshot_index(&self) -> Index {
        self.base()
    }

    fn snapshot(&self) -> Option<Snapshot> {
        match &self.snapshot {
            Some(s) => Some(s.clone()),
            None => None,
        }
    }

    fn apply_snapshot(&mut self, snapshot: &Snapshot) -> Result<(), Error> {
        let base: Index = self.base();
        if snapshot.index <= base {
            return Ok(());
        }
        let ghost before = self@;
        let held: usize = self.entries.len();
        let kept: Option<usize> = match self.slot(snapshot.index) {
            Some(i) => if i < held && self.entries[i].term == snapshot.term {
                Some(i + 1)
            } else {
                None
            },
            None => None,
        };
        match kept {
            Some(k) => {
                let ghost all = self.entries@;
                self.entries = self.entries.split_off(k);
                assert(crate::types::entry_models(self.entries@) =~= before.entries.skip(k as int));
            },
            None => {
                self.entries.truncate(0);
                assert(crate::types::entry_models(self.entries@) =~= Seq::<EntryModel>::empty());
            },
        }
        self.snapshot = Some(snapshot.clone());
        proof {
            law_log_changes_keep_indices_contiguous(
                before,
                Seq::empty(),
                1,
                before.hard,
                snapshot@,
            );
            assert(self@ =~= before.compact(snapshot@));
        }
        Ok(())
    }
}

} // verus!
