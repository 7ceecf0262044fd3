//! The wire format.

use raft_io::{
    framing, AppendEntries, AppendEntriesReply, Error, InstallSnapshot, InstallSnapshotReply,
    LogEntry, Message, PreVote, PreVoteReply, RequestVote, RequestVoteReply, Snapshot, TimeoutNow,
};

fn round_trip(message: Message) {
    let bytes = framing::encode(&message).unwrap();
    assert_eq!(framing::decode(&bytes).unwrap(), message);
}

#[test]
fn test_every_message_variant_round_trips() {
    round_trip(Message::RequestVote(RequestVote {
        term: 4,
        candidate: 2,
        last_log_index: 9,
        last_log_term: 3,
        force: false,
    }));
    round_trip(Message::RequestVoteReply(RequestVoteReply {
        term: 4,
        vote_granted: true,
        from: 3,
    }));
    round_trip(Message::AppendEntries(AppendEntries {
        term: 5,
        leader: 1,
        prev_log_index: 2,
        prev_log_term: 1,
        // Mix a normal command and a configuration entry to cover EntryKind.
        entries: vec![
            LogEntry::new(5, 3, b"cmd".to_vec()),
            LogEntry::config(5, 4, &[1, 2, 3]),
        ],
        leader_commit: 2,
    }));
    round_trip(Message::AppendEntriesReply(AppendEntriesReply {
        term: 5,
        success: false,
        from: 2,
        match_index: 0,
        conflict_index: 3,
        conflict_term: 2,
    }));
    round_trip(Message::InstallSnapshot(InstallSnapshot {
        term: 6,
        leader: 1,
        snapshot: Snapshot::new(10, 3, b"serialized state".to_vec()),
    }));
    round_trip(Message::InstallSnapshotReply(InstallSnapshotReply {
        term: 6,
        from: 2,
        last_index: 10,
    }));
    round_trip(Message::InstallSnapshot(InstallSnapshot {
        term: 6,
        leader: 1,
        snapshot: Snapshot::with_config(10, 3, vec![1, 2, 3], b"state".to_vec()),
    }));
    round_trip(Message::TimeoutNow(TimeoutNow { term: 7, leader: 1 }));
}

#[test]
fn pre_votes_round_trip() {
    round_trip(Message::PreVote(PreVote {
        term: u64::MAX,
        candidate: 128,
        last_log_index: 127,
        last_log_term: 16_384,
    }));
    round_trip(Message::PreVoteReply(PreVoteReply {
        term: 0,
        vote_granted: false,
        from: 255,
    }));
}

#[test]
fn test_decode_rejects_garbage() {
    // A truncated / nonsensical byte string must not decode to a message.
    assert!(framing::decode(&[0xFF, 0xFF, 0xFF]).is_err());
}

/// The exact bytes: variant tag, then the fields in declaration order.
#[test]
fn encodings_have_the_documented_bytes() {
    let m = Message::RequestVote(RequestVote {
        term: 300,
        candidate: 2,
        last_log_index: 9,
        last_log_term: 3,
        force: true,
    });
    assert_eq!(
        framing::encode(&m).unwrap(),
        vec![2, 0xAC, 0x02, 2, 9, 3, 1]
    );
    let m = Message::AppendEntries(AppendEntries {
        term: 5,
        leader: 1,
        prev_log_index: 2,
        prev_log_term: 1,
        entries: vec![LogEntry::new(5, 3, b"cmd".to_vec())],
        leader_commit: 2,
    });
    assert_eq!(
        framing::encode(&m).unwrap(),
        vec![4, 5, 1, 2, 1, 1, 5, 3, 0, 3, b'c', b'm', b'd', 2]
    );
    let m = Message::InstallSnapshot(InstallSnapshot {
        term: 6,
        leader: 1,
        snapshot: Snapshot::with_config(10, 3, vec![1, 200], b"s".to_vec()),
    });
    assert_eq!(
        framing::encode(&m).unwrap(),
        vec![6, 6, 1, 10, 3, 2, 1, 0xC8, 0x01, 1, b's']
    );
}

/// A message's bytes are those that the codec writes for its tag and fields.
#[test]
fn encodings_agree_with_the_codec_on_tuples() {
    let m = Message::AppendEntriesReply(AppendEntriesReply {
        term: 1 << 40,
        success: true,
        from: 2,
        match_index: 77,
        conflict_index: 0,
        conflict_term: 1 << 63,
    });
    let tuple = (5u64, 1u64 << 40, true, 2u64, 77u64, 0u64, 1u64 << 63);
    assert_eq!(
        framing::encode(&m).unwrap(),
        pack_io::encode(&tuple).unwrap()
    );

    let m = Message::AppendEntries(AppendEntries {
        term: 5,
        leader: 1,
        prev_log_index: 2,
        prev_log_term: 1,
        entries: vec![
            LogEntry::new(5, 3, b"cmd".to_vec()),
            LogEntry::config(5, 4, &[1, 2, 3]),
        ],
        leader_commit: 2,
    });
    let entries: Vec<(u64, u64, u64, Vec<u8>)> = vec![
        (5, 3, 0, b"cmd".to_vec()),
        (5, 4, 1, LogEntry::config(5, 4, &[1, 2, 3]).command),
    ];
    let tuple = (4u64, 5u64, 1u64, 2u64, 1u64, entries, 2u64);
    assert_eq!(
        framing::encode(&m).unwrap(),
        pack_io::encode(&tuple).unwrap()
    );
}

#[test]
fn decode_refuses_what_is_not_canonical() {
    let m = Message::TimeoutNow(TimeoutNow { term: 7, leader: 1 });
    let bytes = framing::encode(&m).unwrap();
    assert_eq!(bytes, vec![8, 7, 1]);

    // Trailing bytes, truncation, an unknown variant, an overlong integer.
    for bad in [
        vec![8, 7, 1, 0],
        vec![8, 7],
        vec![],
        vec![9, 7, 1],
        vec![8, 0x87, 0x00, 1],
    ] {
        let err = framing::decode(&bad).unwrap_err();
        assert!(matches!(
            err,
            Error::Encoding {
                context: "decode message",
                ..
            }
        ));
    }

    // A flag that is neither zero nor one.
    assert!(framing::decode(&[1, 4, 2, 3]).is_err());
    assert!(framing::decode(&[1, 4, 1, 3]).is_ok());

    // An unknown entry kind, and lengths that run past the end or the limit.
    assert!(framing::decode(&[4, 5, 1, 2, 1, 1, 5, 3, 0, 1, 9, 2]).is_ok());
    assert!(framing::decode(&[4, 5, 1, 2, 1, 1, 5, 3, 2, 1, 9, 2]).is_err());
    assert!(framing::decode(&[4, 5, 1, 2, 1, 1, 5, 3, 0, 200, 1, 9, 2]).is_err());
    assert!(framing::decode(&[4, 5, 1, 2, 1, 0xFF, 0xFF, 0xFF, 0xFF, 0x0F, 2]).is_err());
    assert!(framing::decode(&[6, 5, 1, 2, 1, 0xFF, 0xFF, 0xFF, 0xFF, 0x0F, 2]).is_err());
}

fn refusal(bytes: &[u8]) -> String {
    match framing::decode(bytes) {
        Err(Error::Encoding { context, detail }) => {
            assert_eq!(context, "decode message");
            detail
        }
        other => panic!("unexpected {other:?}"),
    }
}

/// A refusal carries the codec's own words for what is wrong.
#[test]
fn refusals_are_in_the_words_of_the_codec() {
    let unread = pack_io::SerialError::TrailingBytes { remaining: 2 };
    assert_eq!(refusal(&[8, 7, 1, 0, 0]), unread.to_string());

    let variant = pack_io::SerialError::UnknownVariant {
        kind: "Message",
        index: 300,
    };
    assert_eq!(refusal(&[0xAC, 0x02, 7, 1]), variant.to_string());

    let kind = pack_io::SerialError::UnknownVariant {
        kind: "EntryKind",
        index: 2,
    };
    assert_eq!(
        refusal(&[4, 5, 1, 2, 1, 1, 5, 3, 2, 1, 9, 2]),
        kind.to_string()
    );

    // What the codec refuses on reading a field is handed on as it says it.
    let short = pack_io::decode::<u64>(&[]).unwrap_err();
    assert_eq!(refusal(&[]), short.to_string());
    let canonical = pack_io::Config::new().with_canonical(true);
    let overlong = pack_io::decode_with_config::<u64>(&[0x87, 0x00], canonical).unwrap_err();
    assert_eq!(refusal(&[0x87, 0x00]), overlong.to_string());
}

type Entries = Vec<(u64, u64, u64, Vec<u8>)>;

/// Where no variant is at fault, the codec refuses the tag and the fields read as a
/// tuple in the same words.
#[test]
fn refusals_agree_with_the_codec_on_tuples() {
    for bad in [
        vec![4, 5, 1, 2, 1, 200, 1, 9],
        vec![4, 5, 1, 2, 1, 0xFF, 0xFF, 0xFF, 0xFF, 0x0F, 2],
        vec![4, 5, 1, 2, 1, 1, 5, 3, 0, 200, 1, 9, 2],
        vec![4, 5, 1, 2, 1, 1, 5, 3, 0, 1, 9, 2, 7],
        vec![4, 5, 1, 2, 1, 0],
        vec![4, 5, 1],
    ] {
        let error = pack_io::decode::<(u64, u64, u64, u64, u64, Entries, u64)>(&bad).unwrap_err();
        assert_eq!(refusal(&bad), error.to_string());
    }
    for bad in [
        vec![6, 5, 1, 2, 1, 200, 1, 9],
        vec![6, 5, 1, 2, 1, 1, 9, 200, 1, 0],
        vec![6, 5, 1, 2, 1, 1, 9, 1, 0, 0],
    ] {
        let error =
            pack_io::decode::<(u64, u64, u64, u64, u64, Vec<u64>, Vec<u8>)>(&bad).unwrap_err();
        assert_eq!(refusal(&bad), error.to_string());
    }
    let error = pack_io::decode::<(u64, u64, bool, u64)>(&[1, 4, 2, 3]).unwrap_err();
    assert_eq!(refusal(&[1, 4, 2, 3]), error.to_string());
}

/// Arbitrary bytes are refused or are the encoding of what they decode to.
#[test]
fn decoded_messages_re_encode_identically() {
    let mut state: u64 = 0x5EED;
    let mut next = || {
        state = state
            .wrapping_mul(6_364_136_223_846_793_005)
            .wrapping_add(1_442_695_040_888_963_407);
        (state >> 33) as usize
    };
    let mut decoded = 0;
    for _ in 0..20_000 {
        let len = next() % 12;
        let mut bytes: Vec<u8> = (0..len).map(|_| (next() % 6) as u8).collect();
        if !bytes.is_empty() {
            bytes[0] = (next() % 10) as u8;
        }
        if let Ok(message) = framing::decode(&bytes) {
            decoded += 1;
            assert_eq!(framing::encode(&message).unwrap(), bytes);
        }
    }
    assert!(decoded > 0);
}
