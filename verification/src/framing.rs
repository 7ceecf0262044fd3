//! Typed wire framing for protocol messages.
//!
//! [`encode`] turns a [`Message`] into a byte string, [`decode`] reads one back.
//! The primitives — variable-length integers, flags, byte strings — are those of
//! the `pack-io` codec; a message is a variant tag followed by the variant's
//! fields in declaration order, a sequence is its length followed by its
//! elements. The encoding is canonical: bytes decode to a message exactly when
//! they are what the message encodes to.
//!
//! Using it is optional: a transport that frames messages another way does not
//! need it. A decode failure yields [`Error::Encoding`], which a transport should
//! treat like a dropped message rather than a fatal error.

use crate::error::{Error, ErrorModel};
use crate::message::{
    AppendEntries, AppendEntriesReply, AppendModel, InstallModel, InstallSnapshot,
    InstallSnapshotReply, Message, MessageModel, PreVote, PreVoteReply, RequestVote,
    RequestVoteReply, TimeoutNow,
};
use crate::types::{EntryKind, EntryModel, LogEntry, Snapshot, SnapshotModel};
use vstd::prelude::*;
use vstd::string::StringExecFns;

verus! {

/// The most elements a sequence, or bytes a byte string, may have to be decoded.
pub const LENGTH_LIMIT: u64 = 0x4000_0000;

// ---- the primitives ------------------------------------------------------

/// An integer in base 128, least significant digit first, the high bit set on
/// every byte but the last.
pub open spec fn varint(n: nat) -> Seq<u8>
    decreases n,
{
    if n < 128 {
        seq![n as u8]
    } else {
        seq![(128 + n % 128) as u8] + varint(n / 128)
    }
}

/// A flag as one byte.
pub open spec fn flag(b: bool) -> Seq<u8> {
    seq![if b { 1u8 } else { 0u8 }]
}

/// A byte string: its length, then its bytes.
pub open spec fn bytes_field(b: Seq<u8>) -> Seq<u8> {
    varint(b.len()) + b
}

/// `s` begins with `head`.
pub open spec fn begins_with(s: Seq<u8>, head: Seq<u8>) -> bool {
    head.len() <= s.len() && s.take(head.len() as int) == head
}

/// The error type of the `pack-io` codec.
#[verifier::external_type_specification]
#[verifier::external_body]
pub struct ExSerialError(pack_io::SerialError);

/// The text of a codec error, by `pack_io::SerialError`'s `Display`. Nothing is
/// claimed of the text.
#[verifier::external_body]
fn describe(e: &pack_io::SerialError) -> (r: String) {
    e.to_string()
}

/// The codec's text for an index that no variant of the enum `kind` has.
pub open spec fn unknown_text(kind: Seq<char>, index: u64) -> Seq<char> {
    "unknown "@ + kind + " variant index: "@ + crate::error::decimal_text(index as nat)
}

/// The codec's text for bytes left over.
pub open spec fn unread_text(remaining: nat) -> Seq<char> {
    "trailing input after strict decode: "@ + crate::error::decimal_text(remaining)
        + " byte(s) unread"@
}

/// The codec's text for a length that it does not allow.
pub open spec fn too_long_text(declared: u64, remaining: nat) -> Seq<char> {
    "length prefix exceeds remaining buffer: declared "@ + crate::error::decimal_text(
        declared as nat,
    ) + ", remaining "@ + crate::error::decimal_text(remaining)
}

/// `Display` of `pack_io::SerialError::UnknownVariant`: its text names the enum and
/// the index.
#[verifier::external_body]
fn describe_unknown(kind: &'static str, index: u64) -> (r: String)
    ensures
        r@ == unknown_text(kind@, index),
{
    pack_io::SerialError::UnknownVariant { kind, index }.to_string()
}

/// `Display` of `pack_io::SerialError::TrailingBytes`: its text says how many bytes
/// are left over.
#[verifier::external_body]
fn describe_unread(remaining: usize) -> (r: String)
    ensures
        r@ == unread_text(remaining as nat),
{
    pack_io::SerialError::TrailingBytes { remaining }.to_string()
}

/// `Display` of `pack_io::SerialError::InvalidLength`: its text gives the length and
/// how many bytes follow it.
#[verifier::external_body]
fn describe_too_long(declared: u64, remaining: usize) -> (r: String)
    ensures
        r@ == too_long_text(declared, remaining as nat),
{
    pack_io::SerialError::InvalidLength { declared, remaining }.to_string()
}

/// `pack_io::encode` on a `u64`: an in-memory encoder takes every value, and
/// writes it as the shortest base-128 form.
#[verifier::external_body]
fn pack_u64(v: u64) -> (r: Result<Vec<u8>, pack_io::SerialError>)
    ensures
        r is Ok,
        r matches Ok(b) ==> b@ == varint(v as nat),
{
    pack_io::encode(&v)
}

/// `pack_io::encode` on a `bool`: an in-memory encoder takes every value, and
/// writes one byte, `1` or `0`.
#[verifier::external_body]
fn pack_bool(v: bool) -> (r: Result<Vec<u8>, pack_io::SerialError>)
    ensures
        r is Ok,
        r matches Ok(b) ==> b@ == flag(v),
{
    pack_io::encode(&v)
}

/// `pack_io::encode` on a `[u8]`: an in-memory encoder takes every value, and
/// writes the length, then the bytes.
#[verifier::external_body]
fn pack_bytes(v: &[u8]) -> (r: Result<Vec<u8>, pack_io::SerialError>)
    ensures
        r is Ok,
        r matches Ok(b) ==> b@ == bytes_field(v@),
{
    pack_io::encode(v)
}

/// `pack_io::Decoder::read` of a `u64` from the bytes from `at` on, in canonical
/// mode: it succeeds exactly when they begin with the shortest base-128 form of
/// some value, and returns that value and the length of the form.
#[verifier::external_body]
fn unpack_u64(bytes: &[u8], at: usize) -> (r: Result<(u64, usize), pack_io::SerialError>)
    requires
        at <= bytes@.len(),
    ensures
        match r {
            Ok(x) => begins_with(bytes@.skip(at as int), varint(x.0 as nat)) && x.1 == varint(
                x.0 as nat,
            ).len(),
            Err(_) => forall|v: u64|
                !begins_with(bytes@.skip(at as int), #[trigger] varint(v as nat)),
        },
{
    let config = pack_io::Config::new().with_canonical(true);
    let mut decoder = pack_io::Decoder::with_config(&bytes[at..], config)?;
    let value = decoder.read::<u64>()?;
    Ok((value, decoder.position()))
}

/// `pack_io::Decoder::read` of a `bool` from the bytes from `at` on: it succeeds
/// exactly when they begin with a byte `0` or `1`, and returns which.
#[verifier::external_body]
fn unpack_bool(bytes: &[u8], at: usize) -> (r: Result<bool, pack_io::SerialError>)
    requires
        at <= bytes@.len(),
    ensures
        match r {
            Ok(b) => begins_with(bytes@.skip(at as int), flag(b)),
            Err(_) => forall|b: bool| !begins_with(bytes@.skip(at as int), #[trigger] flag(b)),
        },
{
    let mut decoder = pack_io::Decoder::new(&bytes[at..]);
    decoder.read::<bool>()
}

/// `pack_io::Decoder::read` of a `Vec<u8>` from the bytes from `at` on, in
/// canonical mode and with the codec's default allocation limit of 1 GiB: it
/// succeeds exactly when they begin with the form of some byte string within the
/// limit, and returns that string and the length of the form.
#[verifier::external_body]
fn unpack_bytes(bytes: &[u8], at: usize) -> (r: Result<(Vec<u8>, usize), pack_io::SerialError>)
    requires
        at <= bytes@.len(),
    ensures
        match r {
            Ok(x) => x.0@.len() <= LENGTH_LIMIT && begins_with(
                bytes@.skip(at as int),
                bytes_field(x.0@),
            ) && x.1 == bytes_field(x.0@).len(),
            Err(_) => forall|b: Seq<u8>|
                b.len() <= LENGTH_LIMIT ==> !begins_with(
                    bytes@.skip(at as int),
                    #[trigger] bytes_field(b),
                ),
        },
{
    let config = pack_io::Config::new().with_canonical(true);
    let mut decoder = pack_io::Decoder::with_config(&bytes[at..], config)?;
    let value = decoder.read::<Vec<u8>>()?;
    Ok((value, decoder.position()))
}

// ---- the format ----------------------------------------------------------

/// The tag of an entry kind.
pub open spec fn kind_tag(kind: EntryKind) -> u64 {
    match kind {
        EntryKind::Normal => 0,
        EntryKind::Config => 1,
    }
}

/// A run of integers.
pub open spec fn words_wire(words: Seq<u64>) -> Seq<u8>
    decreases words.len(),
{
    if words.len() == 0 {
        Seq::empty()
    } else {
        varint(words[0] as nat) + words_wire(words.skip(1))
    }
}

/// The bytes of an entry: term, index, kind and command.
pub open spec fn entry_wire(e: EntryModel) -> Seq<u8> {
    words_wire(seq![e.term, e.index, kind_tag(e.kind)]) + bytes_field(e.command)
}

/// The bytes of a run of entries.
pub open spec fn entries_wire(es: Seq<EntryModel>) -> Seq<u8>
    decreases es.len(),
{
    if es.len() == 0 {
        Seq::empty()
    } else {
        entry_wire(es[0]) + entries_wire(es.skip(1))
    }
}

/// The fields of a message, in declaration order.
pub open spec fn fields_wire(m: MessageModel) -> Seq<u8> {
    match m {
        MessageModel::PreVote(x) => words_wire(
            seq![x.term, x.candidate, x.last_log_index, x.last_log_term],
        ),
        MessageModel::PreVoteReply(x) => words_wire(seq![x.term]) + flag(x.vote_granted)
            + words_wire(seq![x.from]),
        MessageModel::RequestVote(x) => words_wire(
            seq![x.term, x.candidate, x.last_log_index, x.last_log_term],
        ) + flag(x.force),
        MessageModel::RequestVoteReply(x) => words_wire(seq![x.term]) + flag(x.vote_granted)
            + words_wire(seq![x.from]),
        MessageModel::AppendEntries(x) => words_wire(
            seq![x.term, x.leader, x.prev_log_index, x.prev_log_term, x.entries.len() as u64],
        ) + entries_wire(x.entries) + words_wire(seq![x.leader_commit]),
        MessageModel::AppendEntriesReply(x) => words_wire(seq![x.term]) + flag(x.success)
            + words_wire(seq![x.from, x.match_index, x.conflict_index, x.conflict_term]),
        MessageModel::InstallSnapshot(x) => words_wire(
            seq![
                x.term,
                x.leader,
                x.snapshot.index,
                x.snapshot.term,
                x.snapshot.config.len() as u64,
            ],
        ) + words_wire(x.snapshot.config) + bytes_field(x.snapshot.data),
        MessageModel::InstallSnapshotReply(x) => words_wire(seq![x.term, x.from, x.last_index]),
        MessageModel::TimeoutNow(x) => words_wire(seq![x.term, x.leader]),
    }
}

/// The tag of a message's variant: its place in the declaration.
pub open spec fn variant_tag(m: MessageModel) -> nat {
    match m {
        MessageModel::PreVote(_) => 0,
        MessageModel::PreVoteReply(_) => 1,
        MessageModel::RequestVote(_) => 2,
        MessageModel::RequestVoteReply(_) => 3,
        MessageModel::AppendEntries(_) => 4,
        MessageModel::AppendEntriesReply(_) => 5,
        MessageModel::InstallSnapshot(_) => 6,
        MessageModel::InstallSnapshotReply(_) => 7,
        MessageModel::TimeoutNow(_) => 8,
    }
}

/// The bytes of a message: the tag of its variant, then the variant's fields.
pub open spec fn wire(m: MessageModel) -> Seq<u8> {
    varint(variant_tag(m)) + fields_wire(m)
}

/// Every length in the message is within the decoder's limit.
pub open spec fn within_limits(m: MessageModel) -> bool {
    match m {
        MessageModel::AppendEntries(x) => x.entries.len() <= LENGTH_LIMIT && entries_within_limits(
            x.entries,
        ),
        MessageModel::InstallSnapshot(x) => x.snapshot.config.len() <= LENGTH_LIMIT
            && x.snapshot.data.len() <= LENGTH_LIMIT,
        _ => true,
    }
}

/// Every command of the entries is within the decoder's limit.
pub open spec fn entries_within_limits(es: Seq<EntryModel>) -> bool {
    forall|i: int| 0 <= i < es.len() ==> (#[trigger] es[i]).command.len() <= LENGTH_LIMIT
}

// ---- reading the format --------------------------------------------------

/// The integer that `s` begins with, and what follows it.
pub open spec fn get_u64(s: Seq<u8>) -> Option<(u64, Seq<u8>)> {
    if exists|v: u64| begins_with(s, #[trigger] varint(v as nat)) {
        let v = choose|v: u64| begins_with(s, #[trigger] varint(v as nat));
        Some((v, s.skip(varint(v as nat).len() as int)))
    } else {
        None
    }
}

/// The flag that `s` begins with, and what follows it.
pub open spec fn get_bool(s: Seq<u8>) -> Option<(bool, Seq<u8>)> {
    if s.len() > 0 && s[0] <= 1 {
        Some((s[0] == 1, s.skip(1)))
    } else {
        None
    }
}

/// The byte string that `s` begins with, and what follows it.
pub open spec fn get_bytes(s: Seq<u8>) -> Option<(Seq<u8>, Seq<u8>)> {
    match get_u64(s) {
        Some((n, rest)) => if n <= LENGTH_LIMIT && n <= rest.len() {
            Some((rest.take(n as int), rest.skip(n as int)))
        } else {
            None
        },
        None => None,
    }
}

/// A form of one value is no beginning of another's.
pub proof fn lemma_varint_is_prefix_free(s: Seq<u8>, a: nat, b: nat)
    requires
        begins_with(s, varint(a)),
        begins_with(s, varint(b)),
    ensures
        a == b,
    decreases a,
{
    assert(varint(a)[0] == s[0]) by {
        assert(s.take(varint(a).len() as int)[0] == s[0]);
    }
    assert(varint(b)[0] == s[0]) by {
        assert(s.take(varint(b).len() as int)[0] == s[0]);
    }
    if a >= 128 && b >= 128 {
        let t = s.skip(1);
        assert(varint(a / 128) =~= varint(a).skip(1));
        assert(varint(b / 128) =~= varint(b).skip(1));
        assert(t.take(varint(a / 128).len() as int) =~= s.take(varint(a).len() as int).skip(1));
        assert(t.take(varint(b / 128).len() as int) =~= s.take(varint(b).len() as int).skip(1));
        lemma_varint_is_prefix_free(t, a / 128, b / 128);
        assert(a % 128 == b % 128);
    }
}

/// An integer is found where it was written.
pub proof fn lemma_get_u64(v: u64, rest: Seq<u8>)
    ensures
        get_u64(varint(v as nat) + rest) == Some((v, rest)),
{
    let s = varint(v as nat) + rest;
    let n = varint(v as nat).len() as int;
    assert(s.take(n) =~= varint(v as nat));
    assert(begins_with(s, varint(v as nat)));
    let w = choose|w: u64| begins_with(s, #[trigger] varint(w as nat));
    lemma_varint_is_prefix_free(s, v as nat, w as nat);
    assert(s.skip(n) =~= rest);
}

/// What begins with an integer's form yields that integer.
pub proof fn lemma_get_u64_of(s: Seq<u8>, v: u64)
    requires
        begins_with(s, varint(v as nat)),
    ensures
        get_u64(s) == Some((v, s.skip(varint(v as nat).len() as int))),
        s == varint(v as nat) + s.skip(varint(v as nat).len() as int),
{
    let n = varint(v as nat).len() as int;
    assert(s =~= varint(v as nat) + s.skip(n));
    lemma_get_u64(v, s.skip(n));
}

/// What yields an integer begins with its form.
pub proof fn lemma_u64_got(s: Seq<u8>)
    ensures
        get_u64(s) matches Some((v, rest)) ==> s == varint(v as nat) + rest,
{
    if let Some((v, rest)) = get_u64(s) {
        assert(begins_with(s, varint(v as nat)));
        lemma_get_u64_of(s, v);
    }
}

/// A flag is found where it was written.
pub proof fn lemma_get_bool(b: bool, rest: Seq<u8>)
    ensures
        get_bool(flag(b) + rest) == Some((b, rest)),
{
    assert((flag(b) + rest).skip(1) =~= rest);
}

/// What yields a flag begins with it.
pub proof fn lemma_bool_got(s: Seq<u8>)
    ensures
        get_bool(s) matches Some((b, rest)) ==> s == flag(b) + rest,
{
    if let Some((b, rest)) = get_bool(s) {
        assert(s =~= flag(b) + rest);
    }
}

/// A byte string is found where it was written.
pub proof fn lemma_get_bytes(b: Seq<u8>, rest: Seq<u8>)
    requires
        b.len() <= LENGTH_LIMIT,
    ensures
        get_bytes(bytes_field(b) + rest) == Some((b, rest)),
{
    assert(bytes_field(b) + rest =~= varint(b.len()) + (b + rest));
    lemma_get_u64(b.len() as u64, b + rest);
    assert((b + rest).take(b.len() as int) =~= b);
    assert((b + rest).skip(b.len() as int) =~= rest);
}

/// What yields a byte string begins with its form.
pub proof fn lemma_bytes_got(s: Seq<u8>)
    ensures
        get_bytes(s) matches Some((b, rest)) ==> s == bytes_field(b) + rest && b.len()
            <= LENGTH_LIMIT,
{
    lemma_u64_got(s);
    if let Some((b, rest)) = get_bytes(s) {
        let (n, after) = get_u64(s)->0;
        assert(after =~= b + rest);
        assert(s =~= bytes_field(b) + rest);
    }
}

/// The next `n` integers, and what follows them.
pub open spec fn get_words(s: Seq<u8>, n: nat) -> Option<(Seq<u64>, Seq<u8>)>
    decreases n,
{
    if n == 0 {
        Some((Seq::empty(), s))
    } else {
        match get_u64(s) {
            Some((v, rest)) => match get_words(rest, (n - 1) as nat) {
                Some((words, after)) => Some((seq![v] + words, after)),
                None => None,
            },
            None => None,
        }
    }
}

/// The entry that `s` begins with, and what follows it.
pub open spec fn get_entry(s: Seq<u8>) -> Option<(EntryModel, Seq<u8>)> {
    match get_words(s, 3) {
        Some((w, rest)) => if w[2] <= 1 {
            match get_bytes(rest) {
                Some((command, after)) => Some(
                    (
                        EntryModel {
                            term: w[0],
                            index: w[1],
                            kind: if w[2] == 0 {
                                EntryKind::Normal
                            } else {
                                EntryKind::Config
                            },
                            command,
                        },
                        after,
                    ),
                ),
                None => None,
            }
        } else {
            None
        },
        None => None,
    }
}

/// The next `n` entries, and what follows them.
pub open spec fn get_entries(s: Seq<u8>, n: nat) -> Option<(Seq<EntryModel>, Seq<u8>)>
    decreases n,
{
    if n == 0 {
        Some((Seq::empty(), s))
    } else {
        match get_entry(s) {
            Some((e, rest)) => match get_entries(rest, (n - 1) as nat) {
                Some((es, after)) => Some((seq![e] + es, after)),
                None => None,
            },
            None => None,
        }
    }
}

/// A term, a flag and `n` further integers, and what follows them.
pub open spec fn get_flagged(s: Seq<u8>, n: nat) -> Option<(u64, bool, Seq<u64>, Seq<u8>)> {
    match get_words(s, 1) {
        Some((t, rest)) => match get_bool(rest) {
            Some((b, more)) => match get_words(more, n) {
                Some((w, after)) => Some((t[0], b, w, after)),
                None => None,
            },
            None => None,
        },
        None => None,
    }
}

/// The fields of an append, and what follows them.
pub open spec fn get_append(s: Seq<u8>) -> Option<(MessageModel, Seq<u8>)> {
    match get_words(s, 5) {
        Some((w, rest)) => if w[4] <= LENGTH_LIMIT {
            match get_entries(rest, w[4] as nat) {
                Some((entries, more)) => match get_words(more, 1) {
                    Some((c, after)) => Some(
                        (
                            MessageModel::AppendEntries(
                                AppendModel {
                                    term: w[0],
                                    leader: w[1],
                                    prev_log_index: w[2],
                                    prev_log_term: w[3],
                                    entries,
                                    leader_commit: c[0],
                                },
                            ),
                            after,
                        ),
                    ),
                    None => None,
                },
                None => None,
            }
        } else {
            None
        },
        None => None,
    }
}

/// The fields of a snapshot transfer, and what follows them.
pub open spec fn get_install(s: Seq<u8>) -> Option<(MessageModel, Seq<u8>)> {
    match get_words(s, 5) {
        Some((w, rest)) => if w[4] <= LENGTH_LIMIT {
            match get_words(rest, w[4] as nat) {
                Some((config, more)) => match get_bytes(more) {
                    Some((data, after)) => Some(
                        (
                            MessageModel::InstallSnapshot(
                                InstallModel {
                                    term: w[0],
                                    leader: w[1],
                                    snapshot: SnapshotModel {
                                        index: w[2],
                                        term: w[3],
                                        config,
                                        data,
                                    },
                                },
                            ),
                            after,
                        ),
                    ),
                    None => None,
                },
                None => None,
            }
        } else {
            None
        },
        None => None,
    }
}

/// The fields of the variant with tag `tag`, and what follows them.
pub open spec fn get_fields(tag: u64, s: Seq<u8>) -> Option<(MessageModel, Seq<u8>)> {
    if tag == 0 {
        match get_words(s, 4) {
            Some((w, after)) => Some(
                (
                    MessageModel::PreVote(
                        PreVote {
                            term: w[0],
                            candidate: w[1],
                            last_log_index: w[2],
                            last_log_term: w[3],
                        },
                    ),
                    after,
                ),
            ),
            None => None,
        }
    } else if tag == 1 {
        match get_flagged(s, 1) {
            Some((term, vote_granted, w, after)) => Some(
                (
                    MessageModel::PreVoteReply(PreVoteReply { term, vote_granted, from: w[0] }),
                    after,
                ),
            ),
            None => None,
        }
    } else if tag == 2 {
        match get_words(s, 4) {
            Some((w, rest)) => match get_bool(rest) {
                Some((force, after)) => Some(
                    (
                        MessageModel::RequestVote(
                            RequestVote {
                                term: w[0],
                                candidate: w[1],
                                last_log_index: w[2],
                                last_log_term: w[3],
                                force,
                            },
                        ),
                        after,
                    ),
                ),
                None => None,
            },
            None => None,
        }
    } else if tag == 3 {
        match get_flagged(s, 1) {
            Some((term, vote_granted, w, after)) => Some(
                (
                    MessageModel::RequestVoteReply(
                        RequestVoteReply { term, vote_granted, from: w[0] },
                    ),
                    after,
                ),
            ),
            None => None,
        }
    } else if tag == 4 {
        get_append(s)
    } else if tag == 5 {
        match get_flagged(s, 4) {
            Some((term, success, w, after)) => Some(
                (
                    MessageModel::AppendEntriesReply(
                        AppendEntriesReply {
                            term,
                            success,
                            from: w[0],
                            match_index: w[1],
                            conflict_index: w[2],
                            conflict_term: w[3],
                        },
                    ),
                    after,
                ),
            ),
            None => None,
        }
    } else if tag == 6 {
        get_install(s)
    } else if tag == 7 {
        match get_words(s, 3) {
            Some((w, after)) => Some(
                (
                    MessageModel::InstallSnapshotReply(
                        InstallSnapshotReply { term: w[0], from: w[1], last_index: w[2] },
                    ),
                    after,
                ),
            ),
            None => None,
        }
    } else if tag == 8 {
        match get_words(s, 2) {
            Some((w, after)) => Some(
                (MessageModel::TimeoutNow(TimeoutNow { term: w[0], leader: w[1] }), after),
            ),
            None => None,
        }
    } else {
        None
    }
}

/// The message that `s` is, from the first byte to the last.
pub open spec fn parse(s: Seq<u8>) -> Option<MessageModel> {
    match get_u64(s) {
        Some((tag, rest)) => match get_fields(tag, rest) {
            Some((m, after)) => if after.len() == 0 {
                Some(m)
            } else {
                None
            },
            None => None,
        },
        None => None,
    }
}

/// Integers are found where they were written.
proof fn lemma_get_words(words: Seq<u64>, rest: Seq<u8>)
    ensures
        get_words(words_wire(words) + rest, words.len()) == Some((words, rest)),
    decreases words.len(),
{
    if words.len() == 0 {
        assert(words_wire(words) + rest =~= rest);
        assert(words =~= Seq::<u64>::empty());
    } else {
        let tail = words.skip(1);
        lemma_get_words(tail, rest);
        assert(words_wire(words) + rest =~= varint(words[0] as nat) + (words_wire(tail) + rest));
        lemma_get_u64(words[0], words_wire(tail) + rest);
        assert(seq![words[0]] + tail =~= words);
    }
}

/// What yields integers begins with them.
proof fn lemma_words_got(s: Seq<u8>, n: nat)
    ensures
        get_words(s, n) matches Some((words, rest)) ==> words.len() == n && s == words_wire(words)
            + rest,
    decreases n,
{
    if n == 0 {
        assert(words_wire(Seq::empty()) + s =~= s);
    } else {
        lemma_u64_got(s);
        if let Some((v, after)) = get_u64(s) {
            lemma_words_got(after, (n - 1) as nat);
            if let Some((words, rest)) = get_words(after, (n - 1) as nat) {
                let all = seq![v] + words;
                assert(all.skip(1) =~= words);
                assert(s =~= words_wire(all) + rest);
            }
        }
    }
}

/// An entry is found where it was written.
proof fn lemma_get_entry(e: EntryModel, rest: Seq<u8>)
    requires
        e.command.len() <= LENGTH_LIMIT,
    ensures
        get_entry(entry_wire(e) + rest) == Some((e, rest)),
{
    let w = seq![e.term, e.index, kind_tag(e.kind)];
    assert(entry_wire(e) + rest =~= words_wire(w) + (bytes_field(e.command) + rest));
    lemma_get_words(w, bytes_field(e.command) + rest);
    lemma_get_bytes(e.command, rest);
}

/// What yields an entry begins with it.
proof fn lemma_entry_got(s: Seq<u8>)
    ensures
        get_entry(s) matches Some((e, rest)) ==> s == entry_wire(e) + rest && e.command.len()
            <= LENGTH_LIMIT,
{
    lemma_words_got(s, 3);
    if let Some((e, rest)) = get_entry(s) {
        let (w, more) = get_words(s, 3)->0;
        lemma_bytes_got(more);
        assert(w =~= seq![e.term, e.index, kind_tag(e.kind)]);
        assert(s =~= entry_wire(e) + rest);
    }
}

/// Entries are found where they were written.
proof fn lemma_get_entries(es: Seq<EntryModel>, rest: Seq<u8>)
    requires
        entries_within_limits(es),
    ensures
        get_entries(entries_wire(es) + rest, es.len()) == Some((es, rest)),
    decreases es.len(),
{
    if es.len() == 0 {
        assert(entries_wire(es) + rest =~= rest);
        assert(es =~= Seq::<EntryModel>::empty());
    } else {
        let tail = es.skip(1);
        assert forall|i: int| 0 <= i < tail.len() implies (#[trigger] tail[i]).command.len()
            <= LENGTH_LIMIT by {
            assert(tail[i] == es[i + 1]);
        }
        lemma_get_entries(tail, rest);
        assert(entries_wire(es) + rest =~= entry_wire(es[0]) + (entries_wire(tail) + rest));
        lemma_get_entry(es[0], entries_wire(tail) + rest);
        assert(seq![es[0]] + tail =~= es);
    }
}

/// What yields entries begins with them.
proof fn lemma_entries_got(s: Seq<u8>, n: nat)
    ensures
        get_entries(s, n) matches Some((es, rest)) ==> es.len() == n && s == entries_wire(es) + rest
            && entries_within_limits(es),
    decreases n,
{
    if n == 0 {
        assert(entries_wire(Seq::empty()) + s =~= s);
    } else {
        lemma_entry_got(s);
        if let Some((e, after)) = get_entry(s) {
            lemma_entries_got(after, (n - 1) as nat);
            if let Some((es, rest)) = get_entries(after, (n - 1) as nat) {
                let all = seq![e] + es;
                assert(all.skip(1) =~= es);
                assert(s =~= entries_wire(all) + rest);
                assert forall|i: int| 0 <= i < all.len() implies (#[trigger] all[i]).command.len()
                    <= LENGTH_LIMIT by {
                    if i > 0 {
                        assert(all[i] == es[i - 1]);
                    }
                }
            }
        }
    }
}

/// Flagged integers are found where they were written.
proof fn lemma_get_flagged(term: u64, b: bool, w: Seq<u64>)
    ensures
        get_flagged(words_wire(seq![term]) + flag(b) + words_wire(w), w.len()) == Some(
            (term, b, w, Seq::<u8>::empty()),
        ),
{
    let s = words_wire(seq![term]) + flag(b) + words_wire(w);
    assert(s =~= words_wire(seq![term]) + (flag(b) + words_wire(w)));
    lemma_get_words(seq![term], flag(b) + words_wire(w));
    lemma_get_bool(b, words_wire(w));
    assert(words_wire(w) =~= words_wire(w) + Seq::<u8>::empty());
    lemma_get_words(w, Seq::empty());
}

/// What yields flagged integers begins with them.
proof fn lemma_flagged_got(s: Seq<u8>, n: nat)
    ensures
        get_flagged(s, n) matches Some((term, b, w, rest)) ==> w.len() == n && s == words_wire(
            seq![term],
        ) + flag(b) + words_wire(w) + rest,
{
    lemma_words_got(s, 1);
    if let Some((term, b, w, rest)) = get_flagged(s, n) {
        let (t, more) = get_words(s, 1)->0;
        assert(t =~= seq![term]);
        lemma_bool_got(more);
        let (c, last) = get_bool(more)->0;
        lemma_words_got(last, n);
        assert(s =~= words_wire(seq![term]) + flag(b) + words_wire(w) + rest);
    }
}

/// An append is found where it was written.
proof fn lemma_get_append(x: AppendModel)
    requires
        within_limits(MessageModel::AppendEntries(x)),
    ensures
        get_append(fields_wire(MessageModel::AppendEntries(x))) == Some(
            (MessageModel::AppendEntries(x), Seq::<u8>::empty()),
        ),
{
    let f = fields_wire(MessageModel::AppendEntries(x));
    let none = Seq::<u8>::empty();
    let w = seq![x.term, x.leader, x.prev_log_index, x.prev_log_term, x.entries.len() as u64];
    let c = words_wire(seq![x.leader_commit]);
    assert(f =~= words_wire(w) + (entries_wire(x.entries) + c));
    lemma_get_words(w, entries_wire(x.entries) + c);
    lemma_get_entries(x.entries, c);
    assert(c =~= c + none);
    lemma_get_words(seq![x.leader_commit], none);
}

/// A snapshot transfer is found where it was written.
proof fn lemma_get_install(x: InstallModel)
    requires
        within_limits(MessageModel::InstallSnapshot(x)),
    ensures
        get_install(fields_wire(MessageModel::InstallSnapshot(x))) == Some(
            (MessageModel::InstallSnapshot(x), Seq::<u8>::empty()),
        ),
{
    let f = fields_wire(MessageModel::InstallSnapshot(x));
    let none = Seq::<u8>::empty();
    let w = seq![
        x.term,
        x.leader,
        x.snapshot.index,
        x.snapshot.term,
        x.snapshot.config.len() as u64,
    ];
    let d = bytes_field(x.snapshot.data);
    assert(f =~= words_wire(w) + (words_wire(x.snapshot.config) + d));
    lemma_get_words(w, words_wire(x.snapshot.config) + d);
    lemma_get_words(x.snapshot.config, d);
    assert(d =~= d + none);
    lemma_get_bytes(x.snapshot.data, none);
}

/// Every message within the decoder's limits is read back as it was written.
#[verifier::rlimit(30)]
pub proof fn law_messages_round_trip(m: MessageModel)
    requires
        within_limits(m),
    ensures
        parse(wire(m)) == Some(m),
{
    let f = fields_wire(m);
    lemma_get_u64(variant_tag(m) as u64, f);
    let none = Seq::<u8>::empty();
    match m {
        MessageModel::PreVote(x) => {
            let w = seq![x.term, x.candidate, x.last_log_index, x.last_log_term];
            assert(f =~= words_wire(w) + none);
            lemma_get_words(w, none);
        },
        MessageModel::PreVoteReply(x) => {
            lemma_get_flagged(x.term, x.vote_granted, seq![x.from]);
        },
        MessageModel::RequestVote(x) => {
            let w = seq![x.term, x.candidate, x.last_log_index, x.last_log_term];
            lemma_get_words(w, flag(x.force));
            assert(flag(x.force) =~= flag(x.force) + none);
            lemma_get_bool(x.force, none);
        },
        MessageModel::RequestVoteReply(x) => {
            lemma_get_flagged(x.term, x.vote_granted, seq![x.from]);
        },
        MessageModel::AppendEntries(x) => {
            lemma_get_append(x);
        },
        MessageModel::AppendEntriesReply(x) => {
            lemma_get_flagged(
                x.term,
                x.success,
                seq![x.from, x.match_index, x.conflict_index, x.conflict_term],
            );
        },
        MessageModel::InstallSnapshot(x) => {
            lemma_get_install(x);
        },
        MessageModel::InstallSnapshotReply(x) => {
            let w = seq![x.term, x.from, x.last_index];
            assert(f =~= words_wire(w) + none);
            lemma_get_words(w, none);
        },
        MessageModel::TimeoutNow(x) => {
            let w = seq![x.term, x.leader];
            assert(f =~= words_wire(w) + none);
            lemma_get_words(w, none);
        },
    }
}

/// The fields of an append, and nothing else, yield it.
proof fn lemma_append_got(s: Seq<u8>)
    ensures
        get_append(s) matches Some((m, after)) ==> {
            &&& m is AppendEntries
            &&& s == fields_wire(m) + after
            &&& within_limits(m)
        },
{
    lemma_words_got(s, 5);
    if let Some((m, after)) = get_append(s) {
        let (w, rest) = get_words(s, 5)->0;
        lemma_entries_got(rest, w[4] as nat);
        let (es, more) = get_entries(rest, w[4] as nat)->0;
        lemma_words_got(more, 1);
        let (c, last) = get_words(more, 1)->0;
        let x = m->AppendEntries_0;
        assert(w =~= seq![
            x.term,
            x.leader,
            x.prev_log_index,
            x.prev_log_term,
            x.entries.len() as u64,
        ]);
        assert(c =~= seq![x.leader_commit]);
        assert(s =~= fields_wire(m) + after);
    }
}

/// The fields of a snapshot transfer, and nothing else, yield it.
proof fn lemma_install_got(s: Seq<u8>)
    ensures
        get_install(s) matches Some((m, after)) ==> {
            &&& m is InstallSnapshot
            &&& s == fields_wire(m) + after
            &&& within_limits(m)
        },
{
    lemma_words_got(s, 5);
    if let Some((m, after)) = get_install(s) {
        let (w, rest) = get_words(s, 5)->0;
        lemma_words_got(rest, w[4] as nat);
        let (config, more) = get_words(rest, w[4] as nat)->0;
        lemma_bytes_got(more);
        let x = m->InstallSnapshot_0;
        assert(w =~= seq![
            x.term,
            x.leader,
            x.snapshot.index,
            x.snapshot.term,
            x.snapshot.config.len() as u64,
        ]);
        assert(s =~= fields_wire(m) + after);
    }
}

/// The fields of a variant, and nothing else, yield it.
proof fn lemma_fields_got(tag: u64, s: Seq<u8>)
    ensures
        get_fields(tag, s) matches Some((m, after)) ==> {
            &&& variant_tag(m) == tag
            &&& s == fields_wire(m) + after
            &&& within_limits(m)
        },
{
    if let Some((m, after)) = get_fields(tag, s) {
        match m {
            MessageModel::PreVote(x) => {
                lemma_words_got(s, 4);
                let (w, rest) = get_words(s, 4)->0;
                assert(w =~= seq![x.term, x.candidate, x.last_log_index, x.last_log_term]);
            },
            MessageModel::PreVoteReply(x) => {
                lemma_flagged_got(s, 1);
                let (t, b, w, rest) = get_flagged(s, 1)->0;
                assert(w =~= seq![x.from]);
            },
            MessageModel::RequestVote(x) => {
                lemma_words_got(s, 4);
                let (w, rest) = get_words(s, 4)->0;
                lemma_bool_got(rest);
                assert(w =~= seq![x.term, x.candidate, x.last_log_index, x.last_log_term]);
                assert(s =~= fields_wire(m) + after);
            },
            MessageModel::RequestVoteReply(x) => {
                lemma_flagged_got(s, 1);
                let (t, b, w, rest) = get_flagged(s, 1)->0;
                assert(w =~= seq![x.from]);
            },
            MessageModel::AppendEntries(x) => {
                lemma_append_got(s);
                lemma_install_got(s);
            },
            MessageModel::AppendEntriesReply(x) => {
                lemma_flagged_got(s, 4);
                let (t, b, w, rest) = get_flagged(s, 4)->0;
                assert(w =~= seq![x.from, x.match_index, x.conflict_index, x.conflict_term]);
            },
            MessageModel::InstallSnapshot(x) => {
                lemma_append_got(s);
                lemma_install_got(s);
            },
            MessageModel::InstallSnapshotReply(x) => {
                lemma_words_got(s, 3);
                let (w, rest) = get_words(s, 3)->0;
                assert(w =~= seq![x.term, x.from, x.last_index]);
            },
            MessageModel::TimeoutNow(x) => {
                lemma_words_got(s, 2);
                let (w, rest) = get_words(s, 2)->0;
                assert(w =~= seq![x.term, x.leader]);
            },
        }
    }
}

/// The encoding is canonical: bytes that decode to a message are exactly the
/// bytes the message encodes to.
pub proof fn law_decoding_is_canonical(s: Seq<u8>)
    ensures
        parse(s) matches Some(m) ==> wire(m) == s && within_limits(m),
{
    if let Some(m) = parse(s) {
        lemma_u64_got(s);
        let (tag, rest) = get_u64(s)->0;
        lemma_fields_got(tag, rest);
        let (x, after) = get_fields(tag, rest)->0;
        assert(after =~= Seq::<u8>::empty());
        assert(fields_wire(m) + after =~= fields_wire(m));
    }
}

/// Two messages within the limits never share an encoding.
pub proof fn law_encodings_are_distinct(a: MessageModel, b: MessageModel)
    requires
        within_limits(a),
        within_limits(b),
        wire(a) == wire(b),
    ensures
        a == b,
{
    law_messages_round_trip(a);
    law_messages_round_trip(b);
}

/// Whatever is in a message, it is read back as it was written, as long as no list and no
/// string of bytes in it is longer than a gibibyte's worth of items.
pub proof fn law_large_messages_are_read_back(m: MessageModel)
    requires
        m matches MessageModel::AppendEntries(x) ==> x.entries.len() <= 0x4000_0000 && forall|i: int|
            0 <= i < x.entries.len() ==> (#[trigger] x.entries[i]).command.len() <= 0x4000_0000,
        m matches MessageModel::InstallSnapshot(x) ==> x.snapshot.config.len() <= 0x4000_0000
            && x.snapshot.data.len() <= 0x4000_0000,
    ensures
        parse(wire(m)) == Some(m),
{
    law_messages_round_trip(m);
}

/// Up to five integers, one after the other.
proof fn lemma_words_in_order(w: Seq<u64>)
    requires
        1 <= w.len() <= 5,
    ensures
        w.len() == 1 ==> words_wire(w) == varint(w[0] as nat),
        w.len() == 2 ==> words_wire(w) == varint(w[0] as nat) + varint(w[1] as nat),
        w.len() == 3 ==> words_wire(w) == varint(w[0] as nat) + varint(w[1] as nat) + varint(
            w[2] as nat,
        ),
        w.len() == 4 ==> words_wire(w) == varint(w[0] as nat) + varint(w[1] as nat) + varint(
            w[2] as nat,
        ) + varint(w[3] as nat),
        w.len() == 5 ==> words_wire(w) == varint(w[0] as nat) + varint(w[1] as nat) + varint(
            w[2] as nat,
        ) + varint(w[3] as nat) + varint(w[4] as nat),
    decreases w.len(),
{
    let rest = w.skip(1);
    assert(words_wire(w) == varint(w[0] as nat) + words_wire(rest));
    if w.len() == 1 {
        assert(words_wire(rest) =~= Seq::<u8>::empty());
        assert(words_wire(w) =~= varint(w[0] as nat));
    } else {
        lemma_words_in_order(rest);
        assert(rest[0] == w[1]);
        if w.len() == 2 {
        } else if w.len() == 3 {
            assert(rest[1] == w[2]);
            assert(words_wire(w) =~= varint(w[0] as nat) + varint(w[1] as nat) + varint(
                w[2] as nat,
            ));
        } else if w.len() == 4 {
            assert(rest[1] == w[2] && rest[2] == w[3]);
            assert(words_wire(w) =~= varint(w[0] as nat) + varint(w[1] as nat) + varint(
                w[2] as nat,
            ) + varint(w[3] as nat));
        } else {
            assert(rest[1] == w[2] && rest[2] == w[3] && rest[3] == w[4]);
            assert(words_wire(w) =~= varint(w[0] as nat) + varint(w[1] as nat) + varint(
                w[2] as nat,
            ) + varint(w[3] as nat) + varint(w[4] as nat));
        }
    }
}

/// The bytes of an entry: its term, its index, zero for a command and one for a
/// configuration, and the command after its length. A list of entries is their bytes one
/// after the other.
pub proof fn law_the_bytes_of_entries(e: EntryModel, es: Seq<EntryModel>)
    ensures
        entry_wire(e) == varint(e.term as nat) + varint(e.index as nat) + varint(
            if e.kind == EntryKind::Normal {
                0
            } else {
                1
            },
        ) + varint(e.command.len()) + e.command,
        entries_wire(Seq::empty()) == Seq::<u8>::empty(),
        entries_wire(seq![e] + es) == entry_wire(e) + entries_wire(es),
{
    let w = seq![e.term, e.index, kind_tag(e.kind)];
    lemma_words_in_order(w);
    assert(entry_wire(e) =~= varint(e.term as nat) + varint(e.index as nat) + varint(
        kind_tag(e.kind) as nat,
    ) + varint(e.command.len()) + e.command);
    let all = seq![e] + es;
    assert(all[0] == e);
    assert(all.skip(1) =~= es);
}

/// A message on the wire is the number of its variant and then its fields, in the order
/// in which they are declared; a list comes after its length.
pub proof fn law_the_bytes_of_a_message(m: MessageModel)
    ensures
        wire(m) == match m {
            MessageModel::PreVote(x) => varint(0) + (varint(x.term as nat) + varint(
                x.candidate as nat,
            ) + varint(x.last_log_index as nat) + varint(x.last_log_term as nat)),
            MessageModel::PreVoteReply(x) => varint(1) + (varint(x.term as nat) + flag(
                x.vote_granted,
            ) + varint(x.from as nat)),
            MessageModel::RequestVote(x) => varint(2) + (varint(x.term as nat) + varint(
                x.candidate as nat,
            ) + varint(x.last_log_index as nat) + varint(x.last_log_term as nat) + flag(x.force)),
            MessageModel::RequestVoteReply(x) => varint(3) + (varint(x.term as nat) + flag(
                x.vote_granted,
            ) + varint(x.from as nat)),
            MessageModel::AppendEntries(x) => varint(4) + (varint(x.term as nat) + varint(
                x.leader as nat,
            ) + varint(x.prev_log_index as nat) + varint(x.prev_log_term as nat) + varint(
                (x.entries.len() as u64) as nat,
            ) + entries_wire(x.entries) + varint(x.leader_commit as nat)),
            MessageModel::AppendEntriesReply(x) => varint(5) + (varint(x.term as nat) + flag(
                x.success,
            ) + (varint(x.from as nat) + varint(x.match_index as nat) + varint(
                x.conflict_index as nat,
            ) + varint(x.conflict_term as nat))),
            MessageModel::InstallSnapshot(x) => varint(6) + (varint(x.term as nat) + varint(
                x.leader as nat,
            ) + varint(x.snapshot.index as nat) + varint(x.snapshot.term as nat) + varint(
                (x.snapshot.config.len() as u64) as nat,
            ) + words_wire(x.snapshot.config) + bytes_field(x.snapshot.data)),
            MessageModel::InstallSnapshotReply(x) => varint(7) + (varint(x.term as nat) + varint(
                x.from as nat,
            ) + varint(x.last_index as nat)),
            MessageModel::TimeoutNow(x) => varint(8) + (varint(x.term as nat) + varint(
                x.leader as nat,
            )),
        },
{
    match m {
        MessageModel::PreVote(x) => lemma_words_in_order(
            seq![x.term, x.candidate, x.last_log_index, x.last_log_term],
        ),
        MessageModel::PreVoteReply(x) => {
            lemma_words_in_order(seq![x.term]);
            lemma_words_in_order(seq![x.from]);
        },
        MessageModel::RequestVote(x) => lemma_words_in_order(
            seq![x.term, x.candidate, x.last_log_index, x.last_log_term],
        ),
        MessageModel::RequestVoteReply(x) => {
            lemma_words_in_order(seq![x.term]);
            lemma_words_in_order(seq![x.from]);
        },
        MessageModel::AppendEntries(x) => {
            lemma_words_in_order(
                seq![x.term, x.leader, x.prev_log_index, x.prev_log_term, x.entries.len() as u64],
            );
            lemma_words_in_order(seq![x.leader_commit]);
        },
        MessageModel::AppendEntriesReply(x) => {
            lemma_words_in_order(seq![x.term]);
            lemma_words_in_order(seq![x.from, x.match_index, x.conflict_index, x.conflict_term]);
        },
        MessageModel::InstallSnapshot(x) => lemma_words_in_order(
            seq![
                x.term,
                x.leader,
                x.snapshot.index,
                x.snapshot.term,
                x.snapshot.config.len() as u64,
            ],
        ),
        MessageModel::InstallSnapshotReply(x) => lemma_words_in_order(
            seq![x.term, x.from, x.last_index],
        ),
        MessageModel::TimeoutNow(x) => lemma_words_in_order(seq![x.term, x.leader]),
    }
}

// ---- encoding ------------------------------------------------------------

/// Appends an integer to the buffer.
fn put_u64(buf: &mut Vec<u8>, v: u64) -> (r: Result<(), Error>)
    ensures
        r is Ok,
        final(buf)@ == old(buf)@ + varint(v as nat),
{
    match pack_u64(v) {
        Ok(mut bytes) => {
            buf.append(&mut bytes);
            Ok(())
        },
        Err(e) => Err(Error::encoding("encode message", describe(&e).as_str())),
    }
}

/// Appends a flag to the buffer.
fn put_bool(buf: &mut Vec<u8>, v: bool) -> (r: Result<(), Error>)
    ensures
        r is Ok,
        final(buf)@ == old(buf)@ + flag(v),
{
    match pack_bool(v) {
        Ok(mut bytes) => {
            buf.append(&mut bytes);
            Ok(())
        },
        Err(e) => Err(Error::encoding("encode message", describe(&e).as_str())),
    }
}

/// Appends a byte string to the buffer.
fn put_bytes(buf: &mut Vec<u8>, v: &[u8]) -> (r: Result<(), Error>)
    ensures
        r is Ok,
        final(buf)@ == old(buf)@ + bytes_field(v@),
{
    match pack_bytes(v) {
        Ok(mut bytes) => {
            buf.append(&mut bytes);
            Ok(())
        },
        Err(e) => Err(Error::encoding("encode message", describe(&e).as_str())),
    }
}

/// One more integer at the end of a run.
proof fn lemma_words_wire_push(words: Seq<u64>, v: u64)
    ensures
        words_wire(words.push(v)) == words_wire(words) + varint(v as nat),
    decreases words.len(),
{
    reveal_with_fuel(words_wire, 2);
    let all = words.push(v);
    if words.len() == 0 {
        assert(all.skip(1) =~= Seq::<u64>::empty());
        assert(words_wire(all) =~= words_wire(words) + varint(v as nat));
    } else {
        lemma_words_wire_push(words.skip(1), v);
        assert(all.skip(1) =~= words.skip(1).push(v));
        assert(words_wire(all) =~= words_wire(words) + varint(v as nat));
    }
}

/// One more entry at the end of a run.
proof fn lemma_entries_wire_push(es: Seq<EntryModel>, e: EntryModel)
    ensures
        entries_wire(es.push(e)) == entries_wire(es) + entry_wire(e),
    decreases es.len(),
{
    reveal_with_fuel(entries_wire, 2);
    let all = es.push(e);
    if es.len() == 0 {
        assert(all.skip(1) =~= Seq::<EntryModel>::empty());
        assert(entries_wire(all) =~= entries_wire(es) + entry_wire(e));
    } else {
        lemma_entries_wire_push(es.skip(1), e);
        assert(all.skip(1) =~= es.skip(1).push(e));
        assert(entries_wire(all) =~= entries_wire(es) + entry_wire(e));
    }
}

/// Appends a run of integers to the buffer.
fn put_words(buf: &mut Vec<u8>, words: &[u64]) -> (r: Result<(), Error>)
    ensures
        r is Ok,
        final(buf)@ == old(buf)@ + words_wire(words@),
{
    let ghost before = buf@;
    let mut i: usize = 0;
    proof {
        assert(before + words_wire(words@.take(0)) =~= before);
    }
    while i < words.len()
        invariant
            i <= words@.len(),
            buf@ == before + words_wire(words@.take(i as int)),
        decreases words@.len() - i,
    {
        put_u64(buf, words[i])?;
        proof {
            lemma_words_wire_push(words@.take(i as int), words@[i as int]);
            assert(words@.take(i + 1) =~= words@.take(i as int).push(words@[i as int]));
            assert(before + words_wire(words@.take(i + 1)) =~= (before + words_wire(
                words@.take(i as int),
            )) + varint(words@[i as int] as nat));
        }
        i = i + 1;
    }
    assert(words@.take(i as int) =~= words@);
    Ok(())
}

/// Appends an entry to the buffer.
fn put_entry(buf: &mut Vec<u8>, entry: &LogEntry) -> (r: Result<(), Error>)
    ensures
        r is Ok,
        final(buf)@ == old(buf)@ + entry_wire(entry@),
{
    let tag: u64 = match entry.kind {
        EntryKind::Normal => 0,
        EntryKind::Config => 1,
    };
    let words: [u64; 3] = [entry.term, entry.index, tag];
    assert(words@ =~= seq![entry@.term, entry@.index, kind_tag(entry@.kind)]);
    put_words(buf, &words)?;
    put_bytes(buf, entry.command.as_slice())?;
    assert(buf@ =~= old(buf)@ + entry_wire(entry@));
    Ok(())
}

/// Appends a run of entries to the buffer.
fn put_entries(buf: &mut Vec<u8>, entries: &[LogEntry]) -> (r: Result<(), Error>)
    ensures
        r is Ok,
        final(buf)@ == old(buf)@ + entries_wire(crate::types::entry_models(entries@)),
{
    let ghost before = buf@;
    let ghost models = crate::types::entry_models(entries@);
    let mut i: usize = 0;
    proof {
        assert(before + entries_wire(models.take(0)) =~= before);
    }
    while i < entries.len()
        invariant
            i <= entries@.len(),
            models == crate::types::entry_models(entries@),
            buf@ == before + entries_wire(models.take(i as int)),
        decreases entries@.len() - i,
    {
        put_entry(buf, &entries[i])?;
        proof {
            lemma_entries_wire_push(models.take(i as int), models[i as int]);
            assert(models.take(i + 1) =~= models.take(i as int).push(models[i as int]));
            assert(before + entries_wire(models.take(i + 1)) =~= (before + entries_wire(
                models.take(i as int),
            )) + entry_wire(models[i as int]));
        }
        i = i + 1;
    }
    assert(models.take(i as int) =~= models);
    Ok(())
}

/// Appends a term, a flag and further integers to the buffer.
fn put_flagged(buf: &mut Vec<u8>, term: u64, b: bool, words: &[u64]) -> (r: Result<(), Error>)
    ensures
        r is Ok,
        final(buf)@ == old(buf)@ + (words_wire(seq![term]) + flag(b) + words_wire(words@)),
{
    let first: [u64; 1] = [term];
    assert(first@ =~= seq![term]);
    put_words(buf, &first)?;
    put_bool(buf, b)?;
    put_words(buf, words)?;
    assert(buf@ =~= old(buf)@ + (words_wire(seq![term]) + flag(b) + words_wire(words@)));
    Ok(())
}

/// Appends the fields of a message to the buffer.
fn put_fields(buf: &mut Vec<u8>, message: &Message) -> (r: Result<(), Error>)
    ensures
        r is Ok,
        final(buf)@ == old(buf)@ + fields_wire(message@),
{
    match message {
        Message::PreVote(x) => {
            let words: [u64; 4] = [x.term, x.candidate, x.last_log_index, x.last_log_term];
            assert(words@ =~= seq![x.term, x.candidate, x.last_log_index, x.last_log_term]);
            put_words(buf, &words)
        },
        Message::PreVoteReply(x) => {
            let words: [u64; 1] = [x.from];
            assert(words@ =~= seq![x.from]);
            put_flagged(buf, x.term, x.vote_granted, &words)
        },
        Message::RequestVote(x) => {
            let words: [u64; 4] = [x.term, x.candidate, x.last_log_index, x.last_log_term];
            assert(words@ =~= seq![x.term, x.candidate, x.last_log_index, x.last_log_term]);
            put_words(buf, &words)?;
            put_bool(buf, x.force)?;
            assert(buf@ =~= old(buf)@ + fields_wire(message@));
            Ok(())
        },
        Message::RequestVoteReply(x) => {
            let words: [u64; 1] = [x.from];
            assert(words@ =~= seq![x.from]);
            put_flagged(buf, x.term, x.vote_granted, &words)
        },
        Message::AppendEntries(x) => {
            let words: [u64; 5] = [
                x.term,
                x.leader,
                x.prev_log_index,
                x.prev_log_term,
                x.entries.len() as u64,
            ];
            let commit: [u64; 1] = [x.leader_commit];
            assert(words@ =~= seq![
                x@.term,
                x@.leader,
                x@.prev_log_index,
                x@.prev_log_term,
                x@.entries.len() as u64,
            ]);
            assert(commit@ =~= seq![x@.leader_commit]);
            put_words(buf, &words)?;
            put_entries(buf, x.entries.as_slice())?;
            put_words(buf, &commit)?;
            assert(buf@ =~= old(buf)@ + fields_wire(message@));
            Ok(())
        },
        Message::AppendEntriesReply(x) => {
            let words: [u64; 4] = [x.from, x.match_index, x.conflict_index, x.conflict_term];
            assert(words@ =~= seq![x.from, x.match_index, x.conflict_index, x.conflict_term]);
            put_flagged(buf, x.term, x.success, &words)
        },
        Message::InstallSnapshot(x) => {
            let words: [u64; 5] = [
                x.term,
                x.leader,
                x.snapshot.index,
                x.snapshot.term,
                x.snapshot.config.len() as u64,
            ];
            assert(words@ =~= seq![
                x@.term,
                x@.leader,
                x@.snapshot.index,
                x@.snapshot.term,
                x@.snapshot.config.len() as u64,
            ]);
            put_words(buf, &words)?;
            put_words(buf, x.snapshot.config.as_slice())?;
            put_bytes(buf, x.snapshot.data.as_slice())?;
            assert(buf@ =~= old(buf)@ + fields_wire(message@));
            Ok(())
        },
        Message::InstallSnapshotReply(x) => {
            let words: [u64; 3] = [x.term, x.from, x.last_index];
            assert(words@ =~= seq![x.term, x.from, x.last_index]);
            put_words(buf, &words)
        },
        Message::TimeoutNow(x) => {
            let words: [u64; 2] = [x.term, x.leader];
            assert(words@ =~= seq![x.term, x.leader]);
            put_words(buf, &words)
        },
    }
}

/// Encodes a [`Message`] into its wire bytes. Every message can be encoded.
pub fn encode(message: &Message) -> (r: Result<Vec<u8>, Error>)
    ensures
        r is Ok,
        r matches Ok(b) ==> b@ == wire(message@),
{
    let tag: u64 = match message {
        Message::PreVote(_) => 0,
        Message::PreVoteReply(_) => 1,
        Message::RequestVote(_) => 2,
        Message::RequestVoteReply(_) => 3,
        Message::AppendEntries(_) => 4,
        Message::AppendEntriesReply(_) => 5,
        Message::InstallSnapshot(_) => 6,
        Message::InstallSnapshotReply(_) => 7,
        Message::TimeoutNow(_) => 8,
    };
    let mut buf: Vec<u8> = Vec::new();
    put_u64(&mut buf, tag)?;
    put_fields(&mut buf, message)?;
    assert(buf@ =~= wire(message@));
    Ok(buf)
}

// ---- decoding ------------------------------------------------------------

/// Why bytes that do not begin with an entry are refused, where the kind is at
/// fault; elsewhere the codec gives the reason.
pub open spec fn entry_fault(s: Seq<u8>) -> Option<Seq<char>> {
    match get_words(s, 3) {
        Some((w, rest)) => if w[2] > 1 {
            Some(unknown_text("EntryKind"@, w[2]))
        } else {
            None
        },
        None => None,
    }
}

/// Why bytes that do not begin with `n` entries are refused, where a kind is at
/// fault.
pub open spec fn entries_fault(s: Seq<u8>, n: nat) -> Option<Seq<char>>
    decreases n,
{
    if n == 0 {
        None
    } else {
        match get_entry(s) {
            Some((e, rest)) => entries_fault(rest, (n - 1) as nat),
            None => entry_fault(s),
        }
    }
}

/// Why bytes that do not begin with an append's fields are refused, where a kind or
/// the number of entries is at fault.
pub open spec fn append_fault(s: Seq<u8>) -> Option<Seq<char>> {
    match get_words(s, 5) {
        Some((w, rest)) => if w[4] > LENGTH_LIMIT {
            Some(too_long_text(w[4], rest.len()))
        } else if get_entries(rest, w[4] as nat) is None {
            entries_fault(rest, w[4] as nat)
        } else {
            None
        },
        None => None,
    }
}

/// Why bytes that do not begin with a snapshot transfer's fields are refused, where
/// the number of voters is at fault.
pub open spec fn install_fault(s: Seq<u8>) -> Option<Seq<char>> {
    match get_words(s, 5) {
        Some((w, rest)) => if w[4] > LENGTH_LIMIT {
            Some(too_long_text(w[4], rest.len()))
        } else {
            None
        },
        None => None,
    }
}

/// Why bytes that do not begin with the fields of the variant with tag `tag` are
/// refused, where the codec does not give the reason.
pub open spec fn fields_fault(tag: u64, s: Seq<u8>) -> Option<Seq<char>> {
    if tag == 4 {
        append_fault(s)
    } else if tag == 6 {
        install_fault(s)
    } else if tag > 8 {
        Some(unknown_text("Message"@, tag))
    } else {
        None
    }
}

/// Why bytes that encode no message are refused: an unknown variant or kind, a
/// length past the limit, or bytes left over. Elsewhere the codec gives the reason.
pub open spec fn fault(s: Seq<u8>) -> Option<Seq<char>> {
    match get_u64(s) {
        Some((tag, rest)) => match get_fields(tag, rest) {
            Some((m, after)) => if after.len() > 0 {
                Some(unread_text(after.len()))
            } else {
                None
            },
            None => fields_fault(tag, rest),
        },
        None => None,
    }
}

/// The error is the refusal of malformed bytes.
pub open spec fn is_refusal(e: Error) -> bool {
    e@ matches ErrorModel::Encoding { context, .. } && context == "decode message"@
}

/// The error is the refusal of malformed bytes, for the reason `fault` if that is
/// known.
pub open spec fn refuses(e: Error, fault: Option<Seq<char>>) -> bool {
    is_refusal(e) && (fault matches Some(text) ==> e@ == (ErrorModel::Encoding {
        context: "decode message"@,
        detail: text,
    }))
}

/// Refuses bytes for the reason the codec gives.
fn refuse(e: &pack_io::SerialError) -> (r: Error)
    ensures
        is_refusal(r),
{
    Error::encoding("decode message", describe(e).as_str())
}

/// Reads an integer at `at`, and where it ends.
fn read_u64(bytes: &[u8], at: usize) -> (r: Result<(u64, usize), Error>)
    requires
        at <= bytes@.len(),
    ensures
        match r {
            Ok(x) => x.1 <= bytes@.len() && get_u64(bytes@.skip(at as int)) == Some(
                (x.0, bytes@.skip(x.1 as int)),
            ),
            Err(e) => get_u64(bytes@.skip(at as int)) is None && is_refusal(e),
        },
{
    match unpack_u64(bytes, at) {
        Ok((v, n)) => {
            proof {
                lemma_get_u64_of(bytes@.skip(at as int), v);
                assert(bytes@.skip(at as int).skip(n as int) =~= bytes@.skip(at + n));
            }
            assert(at + n <= bytes@.len());
            assert(bytes@.len() == bytes.len());
            Ok((v, at + n))
        },
        Err(e) => Err(refuse(&e)),
    }
}

/// Reads a flag at `at`, and where it ends.
fn read_bool(bytes: &[u8], at: usize) -> (r: Result<(bool, usize), Error>)
    requires
        at <= bytes@.len(),
    ensures
        match r {
            Ok(x) => x.1 <= bytes@.len() && get_bool(bytes@.skip(at as int)) == Some(
                (x.0, bytes@.skip(x.1 as int)),
            ),
            Err(e) => get_bool(bytes@.skip(at as int)) is None && is_refusal(e),
        },
{
    let ghost s = bytes@.skip(at as int);
    match unpack_bool(bytes, at) {
        Ok(b) => {
            proof {
                assert(s.take(1)[0] == s[0]);
                assert(s.skip(1) =~= bytes@.skip(at + 1));
            }
            assert(at + 1 <= bytes@.len());
            assert(bytes@.len() == bytes.len());
            Ok((b, at + 1))
        },
        Err(e) => {
            proof {
                if s.len() > 0 && s[0] <= 1 {
                    let b = s[0] == 1;
                    assert(s.take(1) =~= flag(b));
                    assert(begins_with(s, flag(b)));
                }
            }
            Err(refuse(&e))
        },
    }
}

/// Reads a byte string at `at`, and where it ends.
fn read_bytes(bytes: &[u8], at: usize) -> (r: Result<(Vec<u8>, usize), Error>)
    requires
        at <= bytes@.len(),
    ensures
        match r {
            Ok(x) => x.1 <= bytes@.len() && get_bytes(bytes@.skip(at as int)) == Some(
                (x.0@, bytes@.skip(x.1 as int)),
            ),
            Err(e) => get_bytes(bytes@.skip(at as int)) is None && is_refusal(e),
        },
{
    let ghost s = bytes@.skip(at as int);
    match unpack_bytes(bytes, at) {
        Ok((b, n)) => {
            proof {
                assert(s =~= bytes_field(b@) + s.skip(n as int));
                lemma_get_bytes(b@, s.skip(n as int));
                assert(s.skip(n as int) =~= bytes@.skip(at + n));
            }
            assert(at + n <= bytes@.len());
            assert(bytes@.len() == bytes.len());
            Ok((b, at + n))
        },
        Err(e) => {
            proof {
                if let Some((b, rest)) = get_bytes(s) {
                    lemma_bytes_got(s);
                    assert(s.take(bytes_field(b).len() as int) =~= bytes_field(b));
                    assert(begins_with(s, bytes_field(b)));
                }
            }
            Err(refuse(&e))
        },
    }
}

/// Reads `n` integers at `at`, and where they end.
fn read_words(bytes: &[u8], at: usize, n: u64) -> (r: Result<(Vec<u64>, usize), Error>)
    requires
        at <= bytes@.len(),
    ensures
        match r {
            Ok(x) => x.1 <= bytes@.len() && x.0@.len() == n && get_words(
                bytes@.skip(at as int),
                n as nat,
            ) == Some((x.0@, bytes@.skip(x.1 as int))),
            Err(e) => get_words(bytes@.skip(at as int), n as nat) is None && is_refusal(e),
        },
{
    let ghost goal = get_words(bytes@.skip(at as int), n as nat);
    let mut out: Vec<u64> = Vec::new();
    let mut here: usize = at;
    let mut i: u64 = 0;
    proof {
        if let Some((w, rest)) = goal {
            assert(Seq::<u64>::empty() + w =~= w);
        }
    }
    while i < n
        invariant
            i <= n,
            here <= bytes@.len(),
            out@.len() == i,
            goal == (match get_words(bytes@.skip(here as int), (n - i) as nat) {
                Some((w, rest)) => Some((out@ + w, rest)),
                None => None,
            }),
            goal == get_words(bytes@.skip(at as int), n as nat),
        decreases n - i,
    {
        let (v, next) = read_u64(bytes, here)?;
        proof {
            if let Some((w, rest)) = get_words(bytes@.skip(next as int), (n - i - 1) as nat) {
                assert(out@ + (seq![v] + w) =~= out@.push(v) + w);
            }
        }
        out.push(v);
        here = next;
        i = i + 1;
    }
    assert(out@ + Seq::<u64>::empty() =~= out@);
    Ok((out, here))
}

/// Reads an entry at `at`, and where it ends.
fn read_entry(bytes: &[u8], at: usize) -> (r: Result<(LogEntry, usize), Error>)
    requires
        at <= bytes@.len(),
    ensures
        match r {
            Ok(x) => x.1 <= bytes@.len() && get_entry(bytes@.skip(at as int)) == Some(
                (x.0@, bytes@.skip(x.1 as int)),
            ),
            Err(e) => get_entry(bytes@.skip(at as int)) is None && refuses(
                e,
                entry_fault(bytes@.skip(at as int)),
            ),
        },
{
    let (words, next) = read_words(bytes, at, 3)?;
    let kind = if words[2] == 0 {
        EntryKind::Normal
    } else if words[2] == 1 {
        EntryKind::Config
    } else {
        return Err(unknown("EntryKind", words[2]));
    };
    let (command, end) = read_bytes(bytes, next)?;
    Ok((LogEntry { term: words[0], index: words[1], kind, command }, end))
}

/// Refuses an index that no variant of `kind` has.
fn unknown(kind: &'static str, index: u64) -> (r: Error)
    ensures
        refuses(r, Some(unknown_text(kind@, index))),
{
    Error::encoding("decode message", describe_unknown(kind, index).as_str())
}

/// Refuses a length past the limit.
fn too_long(declared: u64, remaining: usize) -> (r: Error)
    ensures
        refuses(r, Some(too_long_text(declared, remaining as nat))),
{
    Error::encoding("decode message", describe_too_long(declared, remaining).as_str())
}

/// Reads `n` entries at `at`, and where they end.
fn read_entries(bytes: &[u8], at: usize, n: u64) -> (r: Result<(Vec<LogEntry>, usize), Error>)
    requires
        at <= bytes@.len(),
    ensures
        match r {
            Ok(x) => x.1 <= bytes@.len() && get_entries(bytes@.skip(at as int), n as nat) == Some(
                (crate::types::entry_models(x.0@), bytes@.skip(x.1 as int)),
            ),
            Err(e) => get_entries(bytes@.skip(at as int), n as nat) is None && refuses(
                e,
                entries_fault(bytes@.skip(at as int), n as nat),
            ),
        },
{
    let ghost goal = get_entries(bytes@.skip(at as int), n as nat);
    let ghost why = entries_fault(bytes@.skip(at as int), n as nat);
    let mut out: Vec<LogEntry> = Vec::new();
    let mut here: usize = at;
    let mut i: u64 = 0;
    proof {
        if let Some((es, rest)) = goal {
            assert(crate::types::entry_models(out@) + es =~= es);
        }
    }
    while i < n
        invariant
            i <= n,
            here <= bytes@.len(),
            out@.len() == i,
            goal == (match get_entries(bytes@.skip(here as int), (n - i) as nat) {
                Some((es, rest)) => Some((crate::types::entry_models(out@) + es, rest)),
                None => None,
            }),
            goal == get_entries(bytes@.skip(at as int), n as nat),
            why == entries_fault(bytes@.skip(here as int), (n - i) as nat),
            why == entries_fault(bytes@.skip(at as int), n as nat),
        decreases n - i,
    {
        let (e, next) = read_entry(bytes, here)?;
        let ghost before = out@;
        out.push(e);
        proof {
            assert(crate::types::entry_models(out@) =~= crate::types::entry_models(before).push(
                e@,
            ));
            if let Some((es, rest)) = get_entries(bytes@.skip(next as int), (n - i - 1) as nat) {
                assert(crate::types::entry_models(before) + (seq![e@] + es)
                    =~= crate::types::entry_models(out@) + es);
            }
        }
        here = next;
        i = i + 1;
    }
    assert(crate::types::entry_models(out@) + Seq::<EntryModel>::empty()
        =~= crate::types::entry_models(out@));
    Ok((out, here))
}

/// Reads a term, a flag and `n` integers at `at`, and where they end.
fn read_flagged(bytes: &[u8], at: usize, n: u64) -> (r: Result<
    (u64, bool, Vec<u64>, usize),
    Error,
>)
    requires
        at <= bytes@.len(),
    ensures
        match r {
            Ok(x) => x.3 <= bytes@.len() && x.2@.len() == n && get_flagged(
                bytes@.skip(at as int),
                n as nat,
            ) == Some((x.0, x.1, x.2@, bytes@.skip(x.3 as int))),
            Err(e) => get_flagged(bytes@.skip(at as int), n as nat) is None && is_refusal(e),
        },
{
    let (term, a) = read_words(bytes, at, 1)?;
    let (b, c) = read_bool(bytes, a)?;
    let (words, end) = read_words(bytes, c, n)?;
    Ok((term[0], b, words, end))
}

/// Reads the fields of an append at `at`, and where they end.
fn read_append(bytes: &[u8], at: usize) -> (r: Result<(Message, usize), Error>)
    requires
        at <= bytes@.len(),
    ensures
        match r {
            Ok(x) => x.1 <= bytes@.len() && get_append(bytes@.skip(at as int)) == Some(
                (x.0@, bytes@.skip(x.1 as int)),
            ),
            Err(e) => get_append(bytes@.skip(at as int)) is None && refuses(
                e,
                append_fault(bytes@.skip(at as int)),
            ),
        },
{
    let (words, a) = read_words(bytes, at, 5)?;
    if words[4] > LENGTH_LIMIT {
        return Err(too_long(words[4], bytes.len() - a));
    }
    let (entries, b) = read_entries(bytes, a, words[4])?;
    let (commit, end) = read_words(bytes, b, 1)?;
    let message = Message::AppendEntries(
        AppendEntries {
            term: words[0],
            leader: words[1],
            prev_log_index: words[2],
            prev_log_term: words[3],
            entries,
            leader_commit: commit[0],
        },
    );
    Ok((message, end))
}

/// Reads the fields of a snapshot transfer at `at`, and where they end.
fn read_install(bytes: &[u8], at: usize) -> (r: Result<(Message, usize), Error>)
    requires
        at <= bytes@.len(),
    ensures
        match r {
            Ok(x) => x.1 <= bytes@.len() && get_install(bytes@.skip(at as int)) == Some(
                (x.0@, bytes@.skip(x.1 as int)),
            ),
            Err(e) => get_install(bytes@.skip(at as int)) is None && refuses(
                e,
                install_fault(bytes@.skip(at as int)),
            ),
        },
{
    let (words, a) = read_words(bytes, at, 5)?;
    if words[4] > LENGTH_LIMIT {
        return Err(too_long(words[4], bytes.len() - a));
    }
    let (config, b) = read_words(bytes, a, words[4])?;
    let (data, end) = read_bytes(bytes, b)?;
    let message = Message::InstallSnapshot(
        InstallSnapshot {
            term: words[0],
            leader: words[1],
            snapshot: Snapshot { index: words[2], term: words[3], config, data },
        },
    );
    Ok((message, end))
}

/// Reads the fields of the variant with tag `tag` at `at`, and where they end.
fn read_fields(tag: u64, bytes: &[u8], at: usize) -> (r: Result<(Message, usize), Error>)
    requires
        at <= bytes@.len(),
    ensures
        match r {
            Ok(x) => x.1 <= bytes@.len() && get_fields(tag, bytes@.skip(at as int)) == Some(
                (x.0@, bytes@.skip(x.1 as int)),
            ),
            Err(e) => get_fields(tag, bytes@.skip(at as int)) is None && refuses(
                e,
                fields_fault(tag, bytes@.skip(at as int)),
            ),
        },
{
    if tag == 0 {
        let (w, end) = read_words(bytes, at, 4)?;
        let m = PreVote {
            term: w[0],
            candidate: w[1],
            last_log_index: w[2],
            last_log_term: w[3],
        };
        Ok((Message::PreVote(m), end))
    } else if tag == 1 {
        let (term, vote_granted, w, end) = read_flagged(bytes, at, 1)?;
        Ok((Message::PreVoteReply(PreVoteReply { term, vote_granted, from: w[0] }), end))
    } else if tag == 2 {
        let (w, next) = read_words(bytes, at, 4)?;
        let (force, end) = read_bool(bytes, next)?;
        let m = RequestVote {
            term: w[0],
            candidate: w[1],
            last_log_index: w[2],
            last_log_term: w[3],
            force,
        };
        Ok((Message::RequestVote(m), end))
    } else if tag == 3 {
        let (term, vote_granted, w, end) = read_flagged(bytes, at, 1)?;
        Ok((Message::RequestVoteReply(RequestVoteReply { term, vote_granted, from: w[0] }), end))
    } else if tag == 4 {
        read_append(bytes, at)
    } else if tag == 5 {
        let (term, success, w, end) = read_flagged(bytes, at, 4)?;
        let m = AppendEntriesReply {
            term,
            success,
            from: w[0],
            match_index: w[1],
            conflict_index: w[2],
            conflict_term: w[3],
        };
        Ok((Message::AppendEntriesReply(m), end))
    } else if tag == 6 {
        read_install(bytes, at)
    } else if tag == 7 {
        let (w, end) = read_words(bytes, at, 3)?;
        let m = InstallSnapshotReply { term: w[0], from: w[1], last_index: w[2] };
        Ok((Message::InstallSnapshotReply(m), end))
    } else if tag == 8 {
        let (w, end) = read_words(bytes, at, 2)?;
        Ok((Message::TimeoutNow(TimeoutNow { term: w[0], leader: w[1] }), end))
    } else {
        Err(unknown("Message", tag))
    }
}

/// Decodes a [`Message`] from wire bytes.
///
/// The bytes decode to a message exactly when they are its encoding and its
/// lengths are within the limit; anything else — a truncated, overlong or
/// unknown form, trailing bytes — is refused, for the reason that the codec gives.
pub fn decode(bytes: &[u8]) -> (r: Result<Message, Error>)
    ensures
        match r {
            Ok(m) => bytes@ == wire(m@) && within_limits(m@),
            Err(e) => refuses(e, fault(bytes@)) && forall|m: MessageModel|
                within_limits(m) ==> bytes@ != #[trigger] wire(m),
        },
{
    proof {
        law_decoding_is_canonical(bytes@);
        assert(bytes@.skip(0) =~= bytes@);
        assert forall|m: MessageModel| within_limits(m) && parse(bytes@) is None implies bytes@
            != #[trigger] wire(m) by {
            law_messages_round_trip(m);
        }
    }
    let (tag, at) = read_u64(bytes, 0)?;
    let (message, end) = read_fields(tag, bytes, at)?;
    if end != bytes.len() {
        let unread: usize = bytes.len() - end;
        return Err(Error::encoding("decode message", describe_unread(unread).as_str()));
    }
    Ok(message)
}

} // verus!
