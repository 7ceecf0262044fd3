//! The recording transport.

use raft_io::{MemoryTransport, Message, NodeId, RaftTransport, RequestVoteReply};

fn reply(from: NodeId) -> Message {
    Message::RequestVoteReply(RequestVoteReply {
        term: 1,
        vote_granted: true,
        from,
    })
}

#[test]
fn test_send_queues_in_order() {
    let mut tx = MemoryTransport::new();
    tx.send(2, reply(1)).unwrap();
    tx.send(3, reply(1)).unwrap();
    assert_eq!(tx.pending(), 2);
    let drained = tx.take();
    assert_eq!(drained[0].0, 2);
    assert_eq!(drained[1].0, 3);
}

#[test]
fn test_take_drains() {
    let mut tx = MemoryTransport::new();
    tx.send(2, reply(1)).unwrap();
    let _ = tx.take();
    assert_eq!(tx.pending(), 0);
    assert!(tx.take().is_empty());
}

#[test]
fn clone_keeps_the_outbox() {
    let mut tx = MemoryTransport::new();
    tx.send(4, reply(9)).unwrap();
    let mut copy = tx.clone();
    assert_eq!(copy.take(), vec![(4, reply(9))]);
    assert_eq!(tx.pending(), 1);
}
