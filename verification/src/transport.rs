//! The message-delivery seam and an in-memory implementation.
//!
//! The protocol core does not send anything itself: it emits an action, and a
//! driver delivers the message. [`RaftTransport`] is the trait that driver
//! implements; [`MemoryTransport`] records instead of delivering, for tests and
//! harnesses that route messages by hand.

use crate::error::Error;
use crate::message::{Message, MessageModel};
use crate::types::NodeId;
use vstd::prelude::*;

verus! {

/// Delivers protocol messages to peers.
///
/// How delivery happens is entirely the implementor's concern. Raft tolerates
/// loss, reordering and duplication, so nothing is promised of a send.
pub trait RaftTransport {
    /// Delivers `message` to node `to`, or reports that it cannot be accepted.
    fn send(&mut self, to: NodeId, message: Message) -> Result<(), Error>;
}

/// An in-memory [`RaftTransport`] that records outgoing messages.
///
/// Each message is appended to an outbox that a harness drains with
/// [`take`](MemoryTransport::take), so that ordering, loss and partitions are
/// something the harness controls precisely.
#[derive(Debug)]
pub struct MemoryTransport {
    outbox: Vec<(NodeId, Message)>,
}

/// What a list of destinations and messages holds.
pub open spec fn mail_models(mail: Seq<(NodeId, Message)>) -> Seq<(NodeId, MessageModel)> {
    Seq::new(mail.len(), |i: int| (mail[i].0, mail[i].1@))
}

impl View for MemoryTransport {
    type V = Seq<(NodeId, MessageModel)>;

    closed spec fn view(&self) -> Seq<(NodeId, MessageModel)> {
        mail_models(self.outbox@)
    }
}

impl Clone for MemoryTransport {
    fn clone(&self) -> (r: Self)
        ensures
            r@ == self@,
    {
        let mut outbox: Vec<(NodeId, Message)> = Vec::with_capacity(self.outbox.len());
        let mut i: usize = 0;
        while i < self.outbox.len()
            invariant
                i <= self.outbox@.len(),
                outbox@.len() == i,
                forall|k: int| 0 <= k < i ==> #[trigger] mail_models(outbox@)[k] == mail_models(
                    self.outbox@,
                )[k],
            decreases self.outbox@.len() - i,
        {
            let ghost before = outbox@;
            outbox.push((self.outbox[i].0, self.outbox[i].1.clone()));
            i = i + 1;
            assert forall|k: int| 0 <= k < i implies #[trigger] mail_models(outbox@)[k]
                == mail_models(self.outbox@)[k] by {
                if k < i - 1 {
                    assert(mail_models(before)[k] == mail_models(self.outbox@)[k]);
                }
            }
        }
        let r = MemoryTransport { outbox };
        assert(r@ =~= self@);
        r
    }
}

impl Default for MemoryTransport {
    fn default() -> (r: Self)
        ensures
            r@ == Seq::<(NodeId, MessageModel)>::empty(),
    {
        let r = MemoryTransport { outbox: Vec::new() };
        assert(r@ =~= Seq::<(NodeId, MessageModel)>::empty());
        r
    }
}

impl MemoryTransport {
    /// Creates an empty transport.
    #[must_use]
    pub fn new() -> (r: Self)
        ensures
            r@ == Seq::<(NodeId, MessageModel)>::empty(),
    {
        Self::default()
    }

    /// Removes and returns every queued destination and message, in the order
    /// they were sent.
    #[must_use]
    pub fn take(&mut self) -> (r: Vec<(NodeId, Message)>)
        ensures
            mail_models(r@) == old(self)@,
            final(self)@ == Seq::<(NodeId, MessageModel)>::empty(),
    {
        let mut out: Vec<(NodeId, Message)> = Vec::new();
        std::mem::swap(&mut out, &mut self.outbox);
        assert(self@ =~= Seq::<(NodeId, MessageModel)>::empty());
        out
    }

    /// Returns the number of queued messages without draining them.
    #[must_use]
    pub fn pending(&self) -> (r: usize)
        ensures
            r == self@.len(),
    {
        self.outbox.len()
    }
}

impl RaftTransport for MemoryTransport {
    /// Queues the message; never fails.
    fn send(&mut self, to: NodeId, message: Message) -> (r: Result<(), Error>)
        ensures
            r is Ok,
            final(self)@ == old(self)@.push((to, message@)),
    {
        self.outbox.push((to, message));
        assert(self@ =~= old(self)@.push((to, message@)));
        Ok(())
    }
}

} // verus!
