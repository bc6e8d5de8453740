//! Connection manager for routing packets to server streams.
//!
//! Peers and streams are known by numbers.
use std::collections::HashMap;
use vstd::prelude::*;

verus! {

/// Handle for a server stream connection.
#[derive(Debug, Clone, Copy, PartialEq, Eq, Structural)]
pub struct StreamHandle {
    /// The peer
    pub peer: u64,
    /// The stream that its packets go to
    pub stream: u64,
}

/// Connection manager that routes packets to appropriate streams.
pub struct ConnectionManager {
    streams: HashMap<u64, u64>,
}

impl View for ConnectionManager {
    type V = Map<u64, u64>;

    closed spec fn view(&self) -> Map<u64, u64> {
        self.streams@
    }
}

impl ConnectionManager {
    /// Create a new connection manager.
    pub fn new() -> (r: Self)
        ensures
            r@ == Map::<u64, u64>::empty(),
    {
        ConnectionManager { streams: HashMap::new() }
    }

    /// Register a new stream. One that the peer had before is replaced.
    pub fn register_stream(&mut self, handle: StreamHandle)
        ensures
            final(self)@ == old(self)@.insert(handle.peer, handle.stream),
    {
        self.streams.insert(handle.peer, handle.stream);
    }

    /// Unregister a stream.
    pub fn unregister_stream(&mut self, peer: u64)
        ensures
            final(self)@ == old(self)@.remove(peer),
    {
        self.streams.remove(&peer);
    }

    /// The stream that a packet of the peer goes to.
    pub fn route_packet(&self, peer: u64) -> (r: Option<u64>)
        ensures
            r == (if self@.dom().contains(peer) {
                Some(self@[peer])
            } else {
                None
            }),
    {
        match self.streams.get(&peer) {
            Some(stream) => Some(*stream),
            None => None,
        }
    }

    /// Check if a peer has an active stream.
    pub fn has_stream(&self, peer: u64) -> (r: bool)
        ensures
            r == self@.dom().contains(peer),
    {
        self.streams.contains_key(&peer)
    }

    /// Get the number of active streams.
    pub fn stream_count(&self) -> (r: usize)
        ensures
            r == self@.dom().len(),
    {
        self.streams.len()
    }
}

impl Default for ConnectionManager {
    fn default() -> (r: Self)
        ensures
            r@ == Map::<u64, u64>::empty(),
    {
        ConnectionManager::new()
    }
}

} // verus!
