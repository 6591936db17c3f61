//! The per-peer outbound message queue.
//!
//! Producers append at the tail, the single consumer (the peer's writer
//! loop) takes from the head, so messages reach the wire in the order
//! they were enqueued. Queues of different peers are separate values, so
//! sends to other peers cannot reorder this one.

use vstd::prelude::*;

use crate::protocol::Message;

verus! {

/// An ordered queue of messages awaiting one peer's writer loop.
pub struct OutboundQueue {
    items: Vec<Message>,
}

impl View for OutboundQueue {
    type V = Seq<Message>;

    closed spec fn view(&self) -> Seq<Message> {
        self.items@
    }
}

impl OutboundQueue {
    pub fn new() -> (r: Self)
        ensures
            r@ == Seq::<Message>::empty(),
    {
        OutboundQueue { items: Vec::new() }
    }

    /// Enqueues a message at the tail; everything already queued stays in
    /// place, in order.
    pub fn push_back(&mut self, m: Message)
        ensures
            final(self)@ == old(self)@.push(m),
    {
        self.items.push(m);
    }

    /// Takes the message that has waited longest: always the head, so
    /// dequeue order equals enqueue order.
    pub fn pop_front(&mut self) -> (r: Option<Message>)
        ensures
            old(self)@.len() == 0 ==> r is None && final(self)@ == old(self)@,
            old(self)@.len() > 0 ==> (r == Some(old(self)@[0]) && final(self)@ == old(self)@.skip(
                1,
            )),
    {
        if self.items.len() == 0 {
            None
        } else {
            let m = self.items.remove(0);
            proof {
                assert(self.items@ =~= old(self)@.skip(1));
            }
            Some(m)
        }
    }

    pub fn len(&self) -> (r: usize)
        ensures
            r == self@.len(),
    {
        self.items.len()
    }

    pub fn is_empty(&self) -> (r: bool)
        ensures
            r == (self@.len() == 0),
    {
        self.items.len() == 0
    }
}

/// Per-peer ordering: enqueuing three messages onto a queue holding `s`
/// places them after everything already queued, in exactly the order they
/// were enqueued, and disturbs nothing already queued. Together with
/// `pop_front` always taking the head, the wire receives messages sent to
/// one peer in send order; queues of other peers are separate values, so
/// concurrent sends to them cannot interleave here.
pub proof fn lemma_order_preserved(s: Seq<Message>, a: Message, b: Message, c: Message)
    ensures
        s.push(a).push(b).push(c)[s.len() as int] == a,
        s.push(a).push(b).push(c)[s.len() as int + 1] == b,
        s.push(a).push(b).push(c)[s.len() as int + 2] == c,
        forall|k: int| 0 <= k < s.len() ==> s.push(a).push(b).push(c)[k] == s[k],
{
}

} // verus!
