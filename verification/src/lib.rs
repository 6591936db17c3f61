//! Peer-to-peer transport layer of a distributed-ledger node.
//!
//! The crate defines the wire protocol (typed messages, their binary
//! encoding, and length-prefixed framing), the peer registry that tracks
//! which remote nodes are reachable, the per-peer outbound message queue,
//! the response policy a connection applies to inbound messages, and the
//! liveness deadline a probed peer must answer within.
//! The ledger data carried across the wire (blocks, transactions) is
//! treated as opaque byte payloads; the passive ledger descriptions and
//! their digests live beside the transport.

pub mod account;
pub mod block;
pub mod encoding;
pub mod framing;
pub mod handler;
pub mod liveness;
pub mod hash;
pub mod peer;
pub mod protocol;
pub mod queue;
pub mod registry;
pub mod transaction;
