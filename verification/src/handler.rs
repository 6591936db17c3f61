//! The response policy a connection applies to each decoded inbound
//! message.
//!
//! The transport answers liveness probes itself and routes everything
//! else to the node's higher-level logic; it never interprets ledger
//! payloads.

use vstd::prelude::*;

use crate::protocol::Message;

verus! {

/// What the connection does with one decoded inbound message.
#[derive(Debug, Clone, PartialEq, Eq)]
pub enum InboundAction {
    /// Enqueue this reply to the same peer.
    Reply(Message),
    /// Record that the peer answered a liveness probe; send nothing.
    RecordLiveness,
    /// Hand the message to the node's sync/mempool logic; send nothing.
    Forward(Message),
}

/// The response policy: a probe is answered with exactly one `Pong`, a
/// probe answer is recorded without reply, and every other message is
/// forwarded without reply.
pub open spec fn spec_dispatch(m: Message) -> InboundAction {
    match m {
        Message::Ping => InboundAction::Reply(Message::Pong),
        Message::Pong => InboundAction::RecordLiveness,
        _ => InboundAction::Forward(m),
    }
}

/// Applies the response policy to one inbound message.
pub fn dispatch(m: Message) -> (a: InboundAction)
    ensures
        a == spec_dispatch(m),
        m == Message::Ping <==> a == InboundAction::Reply(Message::Pong),
        m == Message::Pong <==> a == InboundAction::RecordLiveness,
{
    match m {
        Message::Ping => InboundAction::Reply(Message::Pong),
        Message::Pong => InboundAction::RecordLiveness,
        other => InboundAction::Forward(other),
    }
}

} // verus!
