# raft-io

The Raft consensus algorithm as a deterministic state machine, written in Verus:
executable Rust whose behaviour is stated in contracts and proved.

You feed a node events (logical ticks, messages, client requests) and it returns
actions (send this message, apply this command). Time, networking and storage are
the caller's concern.

## Layout

| Where | What |
| --- | --- |
| `src/node.rs` | `RaftNode`, `Event`, `Action`: the node itself |
| `src/model.rs` | the mathematical model of a node, and what each event leads to |
| `src/upkeep.rs` | every step keeps a node well formed |
| `src/laws.rs` | what every step of a node keeps |
| `src/runs.rs` | what holds of a node over any run of events and restarts |
| `src/cluster.rs` | a cluster, what may happen to it, and the record of what has |
| `src/safety.rs`, `src/steps.rs` | the proof that every step agrees with that record |
| `src/guarantees.rs` | what every run of a cluster guarantees |
| `src/log.rs` | the storage seam `RaftLog` and the in-memory `MemoryLog` |
| `src/wal_log.rs` | the records of a durable log, and exact recovery from them |
| `src/framing.rs` | the wire form of messages, over the `pack-io` codec |
| `src/message.rs`, `src/types.rs`, `src/members.rs`, `src/config.rs`, `src/error.rs`, `src/rng.rs`, `src/transport.rs` | what the rest is made of |
| `app/` | the durable log's file, and the error for the `error-forge` framework |

## What is asked of those who run a cluster

The guarantees hold whatever is lost, repeated, reordered or delayed, and whoever
crashes between steps, with three provisos where voters are added or removed:

- A leader is asked for a change of the voters only once it has committed an entry
  of its own term, or while it is uncontested: no other node leads or is in a later
  term, and no other log and no message holds a configuration that its log lacks. So
  it is right after the first election of a new cluster.
- A node that joins does not stand for election before its log names the voters. A
  long election timeout sees to that.
- A node that joins does not compact its log before that either.

What is believed without proof is the `pack-io` codec's form of three plain types and
its wording of three errors, in `src/framing.rs`, and that a storage backend keeps the
contract of `RaftLog`.
