//! Configuration defaults and normalisation.

use raft_io::config::{
    DEFAULT_ELECTION_MAX, DEFAULT_ELECTION_MIN, DEFAULT_HEARTBEAT, DEFAULT_MAX_BATCH,
};
use raft_io::RaftConfig;

#[test]
fn test_new_filters_self_from_peers() {
    let cfg = RaftConfig::new(1, &[1, 2, 3]);
    assert_eq!(cfg.peers(), &[2, 3]);
}

#[test]
fn test_defaults_are_applied() {
    let cfg = RaftConfig::new(2, &[1]);
    assert_eq!(
        cfg.election_timeout(),
        (DEFAULT_ELECTION_MIN, DEFAULT_ELECTION_MAX)
    );
    assert_eq!(cfg.heartbeat_interval(), DEFAULT_HEARTBEAT);
    assert_eq!(cfg.max_batch(), DEFAULT_MAX_BATCH);
    assert_eq!(cfg.seed(), 2);
}

#[test]
fn default_values_are_the_documented_ones() {
    let cfg = RaftConfig::new(7, &[1, 2, 3, 4]);
    assert_eq!(cfg.id(), 7);
    assert_eq!(cfg.peers().len(), 4);
    assert_eq!(cfg.election_timeout(), (10, 20));
    assert_eq!(cfg.heartbeat_interval(), 3);
    assert_eq!(cfg.max_batch(), 64);
    assert_eq!(cfg.snapshot_threshold(), 0);
    assert_eq!(cfg.seed(), 7);
}

#[test]
fn test_max_batch_is_at_least_one() {
    assert_eq!(RaftConfig::single(1).with_max_batch(0).max_batch(), 1);
    assert_eq!(RaftConfig::single(1).with_max_batch(128).max_batch(), 128);
}

#[test]
fn test_single_has_no_peers() {
    assert!(RaftConfig::single(9).peers().is_empty());
}

#[test]
fn test_election_timeout_normalises_bounds() {
    let cfg = RaftConfig::single(1).with_election_timeout(0, 0);
    assert_eq!(cfg.election_timeout(), (1, 1));

    let swapped = RaftConfig::single(1).with_election_timeout(30, 10);
    assert_eq!(swapped.election_timeout(), (30, 30));
}

#[test]
fn test_heartbeat_interval_is_at_least_one() {
    assert_eq!(
        RaftConfig::single(1)
            .with_heartbeat_interval(0)
            .heartbeat_interval(),
        1
    );
}

#[test]
fn test_builder_chains() {
    let cfg = RaftConfig::new(1, &[2, 3])
        .with_election_timeout(15, 30)
        .with_heartbeat_interval(5)
        .with_seed(7);
    assert_eq!(cfg.election_timeout(), (15, 30));
    assert_eq!(cfg.heartbeat_interval(), 5);
    assert_eq!(cfg.seed(), 7);
}

#[test]
fn snapshot_threshold_is_kept_and_the_rest_unchanged() {
    let cfg = RaftConfig::new(1, &[2, 3]).with_snapshot_threshold(6);
    assert_eq!(cfg.snapshot_threshold(), 6);
    assert_eq!(cfg.peers(), &[2, 3]);
    assert_eq!(cfg.clone().snapshot_threshold(), 6);
}
