//! Peer records: the in-memory descriptor of one remote node.

use vstd::prelude::*;

verus! {

/// A network endpoint: IP address and port. An IPv4 address is carried as
/// its IPv6-mapped 128-bit value, so one plain form covers both families.
#[derive(Debug, Clone, Copy, PartialEq, Eq, Hash, Structural)]
pub struct Endpoint {
    pub ip: u128,
    pub port: u16,
}

/// One remote node: its endpoint, the identifier it advertised during
/// handshake (unverified), and whether its connection is live.
#[derive(Debug, Clone)]
pub struct Peer {
    pub address: Endpoint,
    pub node_id: Vec<u8>,
    pub is_connected: bool,
}

impl Peer {
    /// A fresh record for a peer that has not connected yet.
    pub fn new(address: Endpoint, node_id: Vec<u8>) -> (r: Self)
        ensures
            r.address == address,
            r.node_id == node_id,
            !r.is_connected,
    {
        Peer { address, node_id, is_connected: false }
    }

    /// Marks the peer's connection live; nothing else changes.
    pub fn connect(&mut self)
        ensures
            final(self).address == old(self).address,
            final(self).node_id == old(self).node_id,
            final(self).is_connected,
    {
        self.is_connected = true;
    }

    /// Marks the peer's connection closed; nothing else changes.
    pub fn disconnect(&mut self)
        ensures
            final(self).address == old(self).address,
            final(self).node_id == old(self).node_id,
            !final(self).is_connected,
    {
        self.is_connected = false;
    }
}

} // verus!
