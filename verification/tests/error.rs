//! Error texts and metadata.

use raft_io::error::decimal;
use raft_io::Error;

#[test]
fn test_not_leader_display_with_known_leader() {
    let e = Error::NotLeader { leader: Some(7) };
    assert_eq!(e.to_string(), "not the leader; current leader is node 7");
}

#[test]
fn test_not_leader_display_without_leader() {
    let e = Error::NotLeader { leader: None };
    assert_eq!(
        e.to_string(),
        "not the leader; no leader is currently known"
    );
}

#[test]
fn test_storage_constructor_captures_detail() {
    let e = Error::storage("sync log", "device busy");
    assert_eq!(
        e.to_string(),
        "log storage error while sync log: device busy"
    );
}

#[test]
fn test_forge_metadata_distinguishes_variants() {
    let not_leader = Error::NotLeader { leader: None };
    let storage = Error::storage("append entries", "x");
    assert_eq!(not_leader.kind(), "NotLeader");
    assert_eq!(storage.kind(), "Storage");
    assert!(not_leader.is_retryable());
    assert!(!not_leader.is_fatal());
    assert!(!storage.is_retryable());
    assert!(storage.is_fatal());
}

#[test]
fn encoding_and_config_in_progress_texts() {
    let e = Error::encoding("decode message", "unexpected end of input");
    assert_eq!(
        e.to_string(),
        "message framing error while decode message: unexpected end of input"
    );
    assert_eq!(e.kind(), "Encoding");
    assert_eq!(e.caption(), "Message framing failure");
    assert!(!e.is_retryable() && !e.is_fatal());

    let c = Error::ConfigInProgress;
    assert_eq!(c.to_string(), "a configuration change is already in progress");
    assert_eq!(c.kind(), "ConfigInProgress");
    assert_eq!(c.caption(), "Configuration change in progress");
    assert!(c.is_retryable() && !c.is_fatal());

    assert_eq!(Error::NotLeader { leader: None }.caption(), "Not the leader");
    assert_eq!(Error::storage("a", "b").caption(), "Log storage failure");
}

#[test]
fn decimal_matches_the_usual_notation() {
    for n in [0u128, 7, 9, 10, 42, 100, 18_446_744_073_709_551_616] {
        assert_eq!(decimal(n), format!("{n}"));
    }
    let e = Error::NotLeader {
        leader: Some(u64::MAX),
    };
    assert_eq!(
        e.to_string(),
        "not the leader; current leader is node 18446744073709551615"
    );
}
