//! Node configuration.
//!
//! [`RaftConfig`] names a node, lists its peers, and sets the timing that drives
//! elections and heartbeats. Timing is expressed in logical ticks, not
//! wall-clock time: the core counts tick events, and the caller decides how
//! often to tick.

use crate::members::remove_id;
use crate::types::{copy_ids, NodeId};
use vstd::prelude::*;

verus! {

/// Default lower bound of the randomised election timeout, in ticks.
pub const DEFAULT_ELECTION_MIN: u32 = 10;

/// Default upper bound of the randomised election timeout, in ticks.
pub const DEFAULT_ELECTION_MAX: u32 = 20;

/// Default heartbeat interval, in ticks.
pub const DEFAULT_HEARTBEAT: u32 = 3;

/// Default cap on entries carried by a single append.
pub const DEFAULT_MAX_BATCH: usize = 64;

/// Configuration for a single node.
///
/// Build one with [`new`](RaftConfig::new) or [`single`](RaftConfig::single)
/// and tune it with the builder methods, which consume and return `self`.
/// Arguments that make no sense are normalised rather than rejected, so every
/// configuration is usable.
#[derive(Debug)]
pub struct RaftConfig {
    id: NodeId,
    peers: Vec<NodeId>,
    election_timeout_min: u32,
    election_timeout_max: u32,
    heartbeat_interval: u32,
    max_batch: usize,
    snapshot_threshold: usize,
    seed: u64,
}

/// The mathematical content of a [`RaftConfig`].
#[verifier::ext_equal]
pub struct ConfigModel {
    pub id: NodeId,
    pub peers: Seq<NodeId>,
    pub election_timeout_min: u32,
    pub election_timeout_max: u32,
    pub heartbeat_interval: u32,
    pub max_batch: usize,
    pub snapshot_threshold: usize,
    pub seed: u64,
}

impl ConfigModel {
    /// The settings of a node that nobody has tuned.
    pub open spec fn defaults(id: NodeId, peers: Seq<NodeId>) -> ConfigModel {
        ConfigModel {
            id,
            peers: crate::members::without(peers, id),
            election_timeout_min: DEFAULT_ELECTION_MIN,
            election_timeout_max: DEFAULT_ELECTION_MAX,
            heartbeat_interval: DEFAULT_HEARTBEAT,
            max_batch: DEFAULT_MAX_BATCH,
            snapshot_threshold: 0,
            seed: id,
        }
    }

    /// With the election timeout drawn from `min` to `max`, as far as that makes sense.
    pub open spec fn timed(self, min: u32, max: u32) -> ConfigModel {
        let low = if min == 0 {
            1
        } else {
            min
        };
        ConfigModel {
            election_timeout_min: low,
            election_timeout_max: if max < low {
                low
            } else {
                max
            },
            ..self
        }
    }

    /// With a heartbeat every `interval` ticks, as far as that makes sense.
    pub open spec fn beating(self, interval: u32) -> ConfigModel {
        ConfigModel {
            heartbeat_interval: if interval == 0 {
                1
            } else {
                interval
            },
            ..self
        }
    }

    /// With batches of `count` entries at most, as far as that makes sense.
    pub open spec fn batching(self, count: usize) -> ConfigModel {
        ConfigModel {
            max_batch: if count == 0 {
                1
            } else {
                count
            },
            ..self
        }
    }

    /// With a snapshot asked for after `count` applied entries.
    pub open spec fn compacting(self, count: usize) -> ConfigModel {
        ConfigModel { snapshot_threshold: count, ..self }
    }

    /// With timeouts drawn by `seed`.
    pub open spec fn seeded(self, seed: u64) -> ConfigModel {
        ConfigModel { seed, ..self }
    }

    /// What every configuration satisfies: timeouts and intervals of at least
    /// one tick, ordered bounds, batches of at least one entry.
    pub open spec fn usable(self) -> bool {
        &&& 1 <= self.election_timeout_min <= self.election_timeout_max
        &&& 1 <= self.heartbeat_interval
        &&& 1 <= self.max_batch
    }
}

/// A node that nobody has tuned waits ten to twenty ticks for an election and three
/// between heartbeats, asks for no snapshots, and draws from its own id. Its peers are
/// all those given but itself, in the order given.
pub proof fn law_what_a_node_starts_out_with(id: NodeId, peers: Seq<NodeId>, x: NodeId)
    ensures
        ({
            let c = ConfigModel::defaults(id, peers);
            &&& c.usable()
            &&& c.id == id
            &&& c.seed == id
            &&& c.election_timeout_min == 10
            &&& c.election_timeout_max == 20
            &&& c.heartbeat_interval == 3
            &&& c.max_batch == 64
            &&& c.snapshot_threshold == 0
            &&& c.peers.contains(x) <==> peers.contains(x) && x != id
            &&& !peers.contains(id) ==> c.peers == peers
        }),
{
    crate::members::lemma_without_holds(peers, id);
    if !peers.contains(id) {
        crate::members::lemma_without_absent(peers, id);
    }
}

/// A setting that makes sense is taken as given, whatever it is, and changes nothing but
/// itself. A time or a batch of zero counts as one, and a longest wait shorter than the
/// shortest counts as that. Every number of entries to a snapshot, and every seed, makes
/// sense.
pub proof fn law_settings_are_taken_as_given(
    c: ConfigModel,
    min: u32,
    max: u32,
    interval: u32,
    count: usize,
    seed: u64,
)
    requires
        c.usable(),
    ensures
        ({
            let t = c.timed(min, max);
            &&& t.usable()
            &&& t == (ConfigModel {
                election_timeout_min: t.election_timeout_min,
                election_timeout_max: t.election_timeout_max,
                ..c
            })
            &&& 1 <= min <= max ==> t.election_timeout_min == min && t.election_timeout_max == max
            &&& 1 <= min && max < min ==> t.election_timeout_min == min && t.election_timeout_max
                == min
            &&& min == 0 ==> t == c.timed(1, max)
        }),
        ({
            let t = c.beating(interval);
            &&& t.usable()
            &&& t == (ConfigModel { heartbeat_interval: t.heartbeat_interval, ..c })
            &&& interval >= 1 ==> t.heartbeat_interval == interval
            &&& interval == 0 ==> t.heartbeat_interval == 1
        }),
        ({
            let t = c.batching(count);
            &&& t.usable()
            &&& t == (ConfigModel { max_batch: t.max_batch, ..c })
            &&& count >= 1 ==> t.max_batch == count
            &&& count == 0 ==> t.max_batch == 1
        }),
        ({
            let t = c.compacting(count);
            &&& t.usable()
            &&& t == (ConfigModel { snapshot_threshold: count, ..c })
        }),
        ({
            let t = c.seeded(seed);
            &&& t.usable()
            &&& t == (ConfigModel { seed, ..c })
        }),
{
}

/// The larger of two tick counts.
fn larger(a: u32, b: u32) -> (r: u32)
    ensures
        r == (if a >= b { a } else { b }),
{
    if a >= b {
        a
    } else {
        b
    }
}

impl View for RaftConfig {
    type V = ConfigModel;

    closed spec fn view(&self) -> ConfigModel {
        ConfigModel {
            id: self.id,
            peers: self.peers@,
            election_timeout_min: self.election_timeout_min,
            election_timeout_max: self.election_timeout_max,
            heartbeat_interval: self.heartbeat_interval,
            max_batch: self.max_batch,
            snapshot_threshold: self.snapshot_threshold,
            seed: self.seed,
        }
    }
}

impl Clone for RaftConfig {
    fn clone(&self) -> (r: Self)
        ensures
            r@ == self@,
    {
        proof {
            use_type_invariant(self);
        }
        RaftConfig {
            id: self.id,
            peers: copy_ids(self.peers.as_slice()),
            election_timeout_min: self.election_timeout_min,
            election_timeout_max: self.election_timeout_max,
            heartbeat_interval: self.heartbeat_interval,
            max_batch: self.max_batch,
            snapshot_threshold: self.snapshot_threshold,
            seed: self.seed,
        }
    }
}

impl RaftConfig {
    #[verifier::type_invariant]
    spec fn is_usable(self) -> bool {
        self@.usable()
    }

    /// Creates a configuration for node `id` whose peers are `peers`.
    ///
    /// `peers` is every other node in the cluster; `id` itself is left out if it
    /// is there. Timing defaults to a `10..=20` tick election timeout and a `3`
    /// tick heartbeat, and the seed defaults to `id` so that distinct nodes
    /// jitter differently.
    #[must_use]
    pub fn new(id: NodeId, peers: &[NodeId]) -> (r: Self)
        ensures
            r@ == ConfigModel::defaults(id, peers@),
    {
        RaftConfig {
            id,
            peers: remove_id(peers, id),
            election_timeout_min: DEFAULT_ELECTION_MIN,
            election_timeout_max: DEFAULT_ELECTION_MAX,
            heartbeat_interval: DEFAULT_HEARTBEAT,
            max_batch: DEFAULT_MAX_BATCH,
            snapshot_threshold: 0,
            seed: id,
        }
    }

    /// Creates a configuration for a single-node cluster: no peers, a quorum of
    /// one.
    #[must_use]
    pub fn single(id: NodeId) -> (r: Self)
        ensures
            r@ == ConfigModel::defaults(id, Seq::empty()),
            r@.peers.len() == 0,
    {
        let none: [NodeId; 0] = [];
        let r = Self::new(id, &none);
        proof {
            assert(none@ =~= Seq::<NodeId>::empty());
            reveal(Seq::filter);
        }
        r
    }

    /// Sets the randomised election timeout bounds, in ticks.
    ///
    /// The bounds are normalised so that `min >= 1` and `max >= min`.
    #[must_use]
    pub fn with_election_timeout(self, min: u32, max: u32) -> (r: Self)
        ensures
            r@ == (ConfigModel {
                election_timeout_min: if min >= 1 { min } else { 1 },
                election_timeout_max: if max >= min && max >= 1 {
                    max
                } else if min >= 1 {
                    min
                } else {
                    1
                },
                ..self@
            }),
            r@ == self@.timed(min, max),
    {
        proof {
            use_type_invariant(&self);
        }
        let low: u32 = larger(min, 1);
        RaftConfig { election_timeout_min: low, election_timeout_max: larger(max, low), ..self }
    }

    /// Sets the heartbeat interval, in ticks, normalised to at least `1`.
    #[must_use]
    pub fn with_heartbeat_interval(self, interval: u32) -> (r: Self)
        ensures
            r@ == (ConfigModel {
                heartbeat_interval: if interval >= 1 { interval } else { 1 },
                ..self@
            }),
            r@ == self@.beating(interval),
    {
        proof {
            use_type_invariant(&self);
        }
        RaftConfig { heartbeat_interval: larger(interval, 1), ..self }
    }

    /// Sets the maximum number of log entries a single append carries,
    /// normalised to at least `1` so that replication can always make progress.
    #[must_use]
    pub fn with_max_batch(self, max_batch: usize) -> (r: Self)
        ensures
            r@ == (ConfigModel { max_batch: if max_batch >= 1 { max_batch } else { 1 }, ..self@ }),
            r@ == self@.batching(max_batch),
    {
        proof {
            use_type_invariant(&self);
        }
        RaftConfig { max_batch: if max_batch >= 1 { max_batch } else { 1 }, ..self }
    }

    /// Sets how many applied entries the log may hold past the last snapshot
    /// before the node asks for a new one; `0` turns the hints off.
    #[must_use]
    pub fn with_snapshot_threshold(self, threshold: usize) -> (r: Self)
        ensures
            r@ == (ConfigModel { snapshot_threshold: threshold, ..self@ }),
            r@ == self@.compacting(threshold),
    {
        proof {
            use_type_invariant(&self);
        }
        RaftConfig { snapshot_threshold: threshold, ..self }
    }

    /// Sets the seed for the node's election-timeout generator.
    ///
    /// Equal seeds reproduce equal timeout sequences.
    #[must_use]
    pub fn with_seed(self, seed: u64) -> (r: Self)
        ensures
            r@ == (ConfigModel { seed, ..self@ }),
            r@ == self@.seeded(seed),
    {
        proof {
            use_type_invariant(&self);
        }
        RaftConfig { seed, ..self }
    }

    /// Returns this node's id.
    #[must_use]
    pub fn id(&self) -> (r: NodeId)
        ensures
            r == self@.id,
    {
        self.id
    }

    /// Returns this node's peers (every other node in the cluster).
    #[must_use]
    pub fn peers(&self) -> (r: &[NodeId])
        ensures
            r@ == self@.peers,
    {
        self.peers.as_slice()
    }

    /// Returns the election-timeout bounds as `(min, max)` ticks.
    #[must_use]
    pub fn election_timeout(&self) -> (r: (u32, u32))
        ensures
            r == (self@.election_timeout_min, self@.election_timeout_max),
            self@.usable(),
    {
        proof {
            use_type_invariant(self);
        }
        (self.election_timeout_min, self.election_timeout_max)
    }

    /// Returns the heartbeat interval in ticks.
    #[must_use]
    pub fn heartbeat_interval(&self) -> (r: u32)
        ensures
            r == self@.heartbeat_interval,
    {
        self.heartbeat_interval
    }

    /// Returns the maximum entries carried by a single append.
    #[must_use]
    pub fn max_batch(&self) -> (r: usize)
        ensures
            r == self@.max_batch,
    {
        self.max_batch
    }

    /// Returns the number of applied entries after which the node asks for a
    /// snapshot, `0` if it never does.
    #[must_use]
    pub fn snapshot_threshold(&self) -> (r: usize)
        ensures
            r == self@.snapshot_threshold,
    {
        self.snapshot_threshold
    }

    /// Returns the election-timeout seed.
    #[must_use]
    pub fn seed(&self) -> (r: u64)
        ensures
            r == self@.seed,
    {
        self.seed
    }
}

} // verus!
