//! The decisions of a listener: which packets open a connection, which are routed to a stream,
//! and which connections are forgotten.
//!
//! Peers and streams are known by numbers. Instants are milliseconds of a clock that never goes
//! back.
use crate::buffers;
use crate::endian;
use crate::protocol;
use crate::protocol::{ConvId, KcpHeader};
use crate::routes;
use bytes::Bytes;
use dashmap::DashMap;
use std::collections::HashSet;
use vstd::prelude::*;

verus! {

/// Incoming connection information.
#[derive(Debug)]
pub struct IncomingConnection {
    /// The peer
    pub peer: u64,
    /// The conversation of its first packet
    pub conv: ConvId,
    /// Its first packet
    pub handshake_data: Bytes,
    /// When it came
    pub created_at: u64,
}

/// What an incoming connection stands for.
#[verifier::ext_equal]
pub struct IncomingModel {
    /// The peer
    pub peer: u64,
    /// The conversation of its first packet
    pub conv: ConvId,
    /// Its first packet
    pub handshake_data: Seq<u8>,
    /// When it came
    pub created_at: u64,
}

impl View for IncomingConnection {
    type V = IncomingModel;

    open spec fn view(&self) -> IncomingModel {
        IncomingModel {
            peer: self.peer,
            conv: self.conv,
            handshake_data: buffers::bytes_of(self.handshake_data),
            created_at: self.created_at,
        }
    }
}

impl Clone for IncomingConnection {
    fn clone(&self) -> (r: Self)
        ensures
            r@ == self@,
    {
        IncomingConnection {
            peer: self.peer,
            conv: self.conv,
            handshake_data: buffers::share(&self.handshake_data),
            created_at: self.created_at,
        }
    }
}

/// What is to be done with a packet.
#[derive(Debug)]
pub enum PacketAction {
    /// Hand it to this stream
    Route(u64),
    /// Queue this connection for acceptance
    Queue(IncomingConnection),
    /// Nothing
    Ignore,
}

/// The connections that a listener knows of.
pub struct ConnectionTable {
    pending: Vec<IncomingConnection>,
    accepting: HashSet<u64>,
    active: HashSet<u64>,
    routes: DashMap<u64, u64>,
}

/// What such a table stands for.
#[verifier::ext_equal]
pub struct TableModel {
    /// Connections that wait to be accepted, in the order in which they came
    pub pending: Seq<IncomingModel>,
    /// Peers whose connection is being accepted
    pub accepting: Set<u64>,
    /// Peers whose connection has been accepted
    pub active: Set<u64>,
    /// The stream that the packets of a peer go to
    pub routes: Map<u64, u64>,
}

/// What the pending connections stand for.
pub open spec fn pending_models(s: Seq<IncomingConnection>) -> Seq<IncomingModel> {
    Seq::new(s.len(), |i: int| s[i]@)
}

impl View for ConnectionTable {
    type V = TableModel;

    closed spec fn view(&self) -> TableModel {
        TableModel {
            pending: pending_models(self.pending@),
            accepting: self.accepting@,
            active: self.active@,
            routes: routes::routes_of(self.routes),
        }
    }
}

/// The pending connections of other peers.
pub open spec fn of_others(pending: Seq<IncomingModel>, peer: u64) -> Seq<IncomingModel>
    decreases pending.len(),
{
    if pending.len() == 0 {
        Seq::empty()
    } else if pending.last().peer == peer {
        of_others(pending.drop_last(), peer)
    } else {
        of_others(pending.drop_last(), peer).push(pending.last())
    }
}

/// How long ago something was.
pub open spec fn age(created_at: u64, now: u64) -> int {
    if now < created_at {
        0
    } else {
        now - created_at
    }
}

/// The pending connections that are younger than the timeout.
pub open spec fn younger(pending: Seq<IncomingModel>, now: u64, timeout: u64) -> Seq<IncomingModel>
    decreases pending.len(),
{
    if pending.len() == 0 {
        Seq::empty()
    } else if age(pending.last().created_at, now) < timeout {
        younger(pending.drop_last(), now, timeout).push(pending.last())
    } else {
        younger(pending.drop_last(), now, timeout)
    }
}

/// No peer has two pending connections.
pub open spec fn one_each(pending: Seq<IncomingModel>) -> bool {
    forall|i: int, j: int|
        0 <= i < j < pending.len() ==> (#[trigger] pending[i]).peer != (#[trigger] pending[j]).peer
}

impl TableModel {
    /// The peer has a connection that waits to be accepted.
    pub open spec fn is_pending(self, peer: u64) -> bool {
        exists|i: int| 0 <= i < self.pending.len() && (#[trigger] self.pending[i]).peer == peer
    }

    /// A packet of the peer opens no connection.
    pub open spec fn knows(self, peer: u64) -> bool {
        self.active.contains(peer) || self.accepting.contains(peer) || self.is_pending(peer)
    }

    /// A packet of the peer opens this connection.
    pub open spec fn opening(peer: u64, data: Seq<u8>, now: u64) -> IncomingModel {
        IncomingModel {
            peer,
            conv: protocol::header_at_front(data).conv,
            handshake_data: data,
            created_at: now,
        }
    }

    /// A packet that no stream takes opens a connection.
    pub open spec fn admits(self, peer: u64, data: Seq<u8>) -> bool {
        data.len() >= 24 && !self.knows(peer)
    }

    /// A packet of the peer opens a connection.
    pub open spec fn opens(self, peer: u64, data: Seq<u8>) -> bool {
        !self.routes.dom().contains(peer) && self.admits(peer, data)
    }

    /// The connection has been opened.
    pub open spec fn with_opened(self, peer: u64, data: Seq<u8>, now: u64) -> Self {
        TableModel { pending: self.pending.push(TableModel::opening(peer, data, now)), ..self }
    }

    /// The peers are gone.
    pub open spec fn without_peers(self, peers: Seq<u64>) -> Self
        decreases peers.len(),
    {
        if peers.len() == 0 {
            self
        } else {
            let m = self.without_peers(peers.drop_last());
            TableModel {
                routes: m.routes.remove(peers.last()),
                active: m.active.remove(peers.last()),
                ..m
            }
        }
    }

    /// What holds of every table: no peer waits twice, and an active peer has a route.
    pub open spec fn wf(self) -> bool {
        &&& one_each(self.pending)
        &&& forall|peer: u64| #[trigger]
            self.active.contains(peer) ==> self.routes.dom().contains(peer)
    }
}

/// Leaving out a peer leaves each other peer once.
proof fn lemma_of_others(pending: Seq<IncomingModel>, peer: u64)
    requires
        one_each(pending),
    ensures
        one_each(of_others(pending, peer)),
        forall|i: int|
            0 <= i < of_others(pending, peer).len() ==> pending.contains(
                #[trigger] of_others(pending, peer)[i],
            ) && of_others(pending, peer)[i].peer != peer,
    decreases pending.len(),
{
    if pending.len() > 0 {
        let front = pending.drop_last();
        lemma_of_others(front, peer);
        let f = of_others(front, peer);
        let o = of_others(pending, peer);
        assert forall|i: int| 0 <= i < o.len() implies pending.contains(#[trigger] o[i])
            && o[i].peer != peer by {
            if i < f.len() {
                assert(o[i] == f[i]);
                let j = choose|j: int| 0 <= j < front.len() && front[j] == f[i];
                assert(pending[j] == o[i]);
            } else {
                assert(pending[pending.len() - 1] == o[i]);
            }
        }
        assert forall|i: int, j: int| 0 <= i < j < o.len() implies (#[trigger] o[i]).peer != (
        #[trigger] o[j]).peer by {
            assert(o[i] == f[i]);
            if j < f.len() {
                assert(o[j] == f[j]);
            } else {
                let k = choose|k: int| 0 <= k < front.len() && front[k] == f[i];
                assert(pending[k] == f[i]);
                assert(pending[pending.len() - 1] == o[j]);
            }
        }
    }
}

/// Forgetting the old leaves each peer once.
proof fn lemma_younger(pending: Seq<IncomingModel>, now: u64, timeout: u64)
    requires
        one_each(pending),
    ensures
        one_each(younger(pending, now, timeout)),
        forall|i: int|
            0 <= i < younger(pending, now, timeout).len() ==> pending.contains(
                #[trigger] younger(pending, now, timeout)[i],
            ) && age(younger(pending, now, timeout)[i].created_at, now) < timeout,
    decreases pending.len(),
{
    if pending.len() > 0 {
        let front = pending.drop_last();
        lemma_younger(front, now, timeout);
        let f = younger(front, now, timeout);
        let o = younger(pending, now, timeout);
        assert forall|i: int| 0 <= i < o.len() implies pending.contains(#[trigger] o[i]) && age(
            o[i].created_at,
            now,
        ) < timeout by {
            if i < f.len() {
                assert(o[i] == f[i]);
                let j = choose|j: int| 0 <= j < front.len() && front[j] == f[i];
                assert(pending[j] == o[i]);
            } else {
                assert(pending[pending.len() - 1] == o[i]);
            }
        }
        assert forall|i: int, j: int| 0 <= i < j < o.len() implies (#[trigger] o[i]).peer != (
        #[trigger] o[j]).peer by {
            assert(o[i] == f[i]);
            if j < f.len() {
                assert(o[j] == f[j]);
            } else {
                let k = choose|k: int| 0 <= k < front.len() && front[k] == f[i];
                assert(pending[k] == f[i]);
                assert(pending[pending.len() - 1] == o[j]);
            }
        }
    }
}

/// Removing peers keeps a table well-formed.
proof fn lemma_without_peers_wf(m: TableModel, peers: Seq<u64>)
    requires
        m.wf(),
    ensures
        m.without_peers(peers).wf(),
    decreases peers.len(),
{
    if peers.len() > 0 {
        lemma_without_peers_wf(m, peers.drop_last());
    }
}

impl ConnectionTable {
    /// What holds of every table.
    pub open spec fn wf(&self) -> bool {
        self@.wf()
    }

    /// A table without connections.
    pub fn new() -> (r: Self)
        ensures
            r.wf(),
            r@ == (TableModel {
                pending: Seq::empty(),
                accepting: Set::empty(),
                active: Set::empty(),
                routes: Map::empty(),
            }),
    {
        let r = ConnectionTable {
            pending: Vec::new(),
            accepting: HashSet::new(),
            active: HashSet::new(),
            routes: routes::no_routes(),
        };
        assert(r@.pending =~= Seq::empty());
        assert(r@.routes =~= Map::empty());
        r
    }

    /// Whether the peer has a connection that waits to be accepted.
    fn has_pending(&self, peer: u64) -> (r: bool)
        ensures
            r == self@.is_pending(peer),
    {
        let mut i: usize = 0;
        while i < self.pending.len()
            invariant
                i <= self.pending@.len(),
                forall|k: int| 0 <= k < i ==> (#[trigger] self@.pending[k]).peer != peer,
            decreases self.pending@.len() - i,
        {
            assert(self@.pending[i as int] == self.pending@[i as int]@);
            if self.pending[i].peer == peer {
                return true;
            }
            i = i + 1;
        }
        false
    }

    /// Whether anything is remembered of the peer.
    pub fn is_known(&self, peer: u64) -> (r: bool)
        ensures
            r == (self@.knows(peer) || self@.routes.dom().contains(peer)),
    {
        self.active.contains(&peer) || self.accepting.contains(&peer) || self.has_pending(peer)
            || routes::find_route(&self.routes, peer).is_some()
    }

    /// A packet that no stream takes: where it opens a connection, remember the connection and
    /// say that it is to be queued for acceptance.
    pub fn handle_incoming_packet(&mut self, peer: u64, data: Bytes, now: u64) -> (r: Option<
        IncomingConnection,
    >)
        requires
            old(self).wf(),
        ensures
            final(self).wf(),
            ({
                let bytes = buffers::bytes_of(data);
                if old(self)@.admits(peer, bytes) {
                    &&& (r matches Some(q) && q@ == TableModel::opening(peer, bytes, now))
                    &&& final(self)@ == old(self)@.with_opened(peer, bytes, now)
                } else {
                    r is None && final(self)@ == old(self)@
                }
            }),
    {
        let mut rest = buffers::share(&data);
        let header = match KcpHeader::decode(&mut rest) {
            None => {
                return None;
            },
            Some(header) => header,
        };
        if self.active.contains(&peer) || self.accepting.contains(&peer) || self.has_pending(peer) {
            return None;
        }
        let incoming = IncomingConnection {
            peer,
            conv: header.conv,
            handshake_data: data,
            created_at: now,
        };
        let ghost before = self.pending@;
        self.pending.push(incoming.clone());
        proof {
            assert(pending_models(self.pending@) =~= pending_models(before).push(incoming@));
            let was = old(self)@.pending;
            assert(self@.active == old(self)@.active && self@.routes == old(self)@.routes);
            assert forall|i: int| 0 <= i < was.len() implies (#[trigger] was[i]).peer != peer by {
                assert(!old(self)@.is_pending(peer));
            }
            assert forall|i: int, j: int| 0 <= i < j < self@.pending.len() implies (
            #[trigger] self@.pending[i]).peer != (#[trigger] self@.pending[j]).peer by {
                assert(self@.pending[i] == was[i]);
                if j < was.len() {
                    assert(self@.pending[j] == was[j]);
                }
            }
            assert(one_each(self@.pending));
        }
        Some(incoming)
    }

    /// Decide what is done with a packet, and remember the connection if it opens one.
    pub fn on_packet(&mut self, peer: u64, data: Bytes, now: u64) -> (r: PacketAction)
        requires
            old(self).wf(),
        ensures
            final(self).wf(),
            ({
                let bytes = buffers::bytes_of(data);
                if old(self)@.routes.dom().contains(peer) {
                    r == PacketAction::Route(old(self)@.routes[peer]) && final(self)@ == old(self)@
                } else if old(self)@.opens(peer, bytes) {
                    (r matches PacketAction::Queue(q) && q@ == TableModel::opening(
                        peer,
                        bytes,
                        now,
                    )) && final(self)@ == old(self)@.with_opened(peer, bytes, now)
                } else {
                    r == PacketAction::Ignore && final(self)@ == old(self)@
                }
            }),
    {
        match routes::find_route(&self.routes, peer) {
            Some(stream) => {
                return PacketAction::Route(stream);
            },
            None => {},
        }
        match self.handle_incoming_packet(peer, data, now) {
            Some(incoming) => PacketAction::Queue(incoming),
            None => PacketAction::Ignore,
        }
    }

    /// Forget that the peer waits to be accepted.
    pub fn forget_pending(&mut self, peer: u64)
        requires
            old(self).wf(),
        ensures
            final(self).wf(),
            final(self)@ == (TableModel {
                pending: of_others(old(self)@.pending, peer),
                ..old(self)@
            }),
    {
        let ghost all = self@.pending;
        proof {
            lemma_of_others(all, peer);
        }
        let mut kept: Vec<IncomingConnection> = Vec::new();
        let mut i: usize = 0;
        assert(pending_models(kept@) =~= of_others(all.take(0), peer));
        while i < self.pending.len()
            invariant
                i <= self.pending@.len(),
                all == pending_models(self.pending@),
                self@ == old(self)@,
                pending_models(kept@) == of_others(all.take(i as int), peer),
            decreases self.pending@.len() - i,
        {
            proof {
                assert(all.take(i + 1).drop_last() =~= all.take(i as int));
                assert(all.take(i + 1).last() == all[i as int]);
            }
            if self.pending[i].peer != peer {
                let entry = self.pending[i].clone();
                let ghost before = kept@;
                kept.push(entry);
                assert(pending_models(kept@) =~= pending_models(before).push(entry@));
            }
            i = i + 1;
        }
        assert(all.take(i as int) =~= all);
        self.pending = kept;
    }

    /// Begin to accept the connection of the peer, unless the peer is active already.
    pub fn begin_accept(&mut self, peer: u64) -> (r: bool)
        requires
            old(self).wf(),
        ensures
            final(self).wf(),
            r == !old(self)@.active.contains(peer),
            r ==> final(self)@ == (TableModel {
                accepting: old(self)@.accepting.insert(peer),
                ..old(self)@
            }),
            !r ==> final(self)@ == old(self)@,
    {
        if self.active.contains(&peer) {
            return false;
        }
        self.accepting.insert(peer);
        true
    }

    /// The connection of the peer could not be accepted.
    pub fn accept_failed(&mut self, peer: u64)
        requires
            old(self).wf(),
        ensures
            final(self).wf(),
            final(self)@ == (TableModel {
                accepting: old(self)@.accepting.remove(peer),
                ..old(self)@
            }),
    {
        self.accepting.remove(&peer);
    }

    /// The connection of the peer has been accepted: its packets go to this stream.
    pub fn accept_done(&mut self, peer: u64, stream: u64)
        requires
            old(self).wf(),
        ensures
            final(self).wf(),
            final(self)@ == (TableModel {
                pending: of_others(old(self)@.pending, peer),
                accepting: old(self)@.accepting.remove(peer),
                active: old(self)@.active.insert(peer),
                routes: old(self)@.routes.insert(peer, stream),
            }),
    {
        self.forget_pending(peer);
        routes::set_route(&mut self.routes, peer, stream);
        self.active.insert(peer);
        self.accepting.remove(&peer);
    }

    /// Get current number of pending connections.
    pub fn pending_count(&self) -> (r: usize)
        ensures
            r == self@.pending.len(),
    {
        self.pending.len()
    }

    /// Remove a connection from active tracking (called when stream is dropped).
    pub fn remove_active_connection(&mut self, peer: u64)
        requires
            old(self).wf(),
        ensures
            final(self).wf(),
            final(self)@ == (TableModel {
                active: old(self)@.active.remove(peer),
                ..old(self)@
            }),
    {
        self.active.remove(&peer);
    }

    /// The peers that have a route, each with its stream, in no particular order.
    pub fn routed(&self) -> (r: Vec<(u64, u64)>)
        ensures
            forall|i: int|
                0 <= i < r@.len() ==> self@.routes.dom().contains((#[trigger] r@[i]).0)
                    && self@.routes[r@[i].0] == r@[i].1,
            forall|i: int, j: int|
                0 <= i < j < r@.len() ==> (#[trigger] r@[i]).0 != (#[trigger] r@[j]).0,
            forall|k: u64| #[trigger]
                self@.routes.dom().contains(k) ==> exists|i: int|
                    0 <= i < r@.len() && (#[trigger] r@[i]).0 == k,
    {
        routes::all_routes(&self.routes)
    }

    /// Remove the peers whose streams have ended.
    pub fn cleanup_dead_streams(&mut self, dead: &Vec<u64>)
        requires
            old(self).wf(),
        ensures
            final(self).wf(),
            final(self)@ == old(self)@.without_peers(dead@),
    {
        let ghost m = self@;
        let mut i: usize = 0;
        assert(dead@.take(0) =~= Seq::empty());
        while i < dead.len()
            invariant
                i <= dead@.len(),
                m.wf(),
                self@ == m.without_peers(dead@.take(i as int)),
            decreases dead@.len() - i,
        {
            let peer: u64 = dead[i];
            proof {
                assert(dead@.take(i + 1).drop_last() =~= dead@.take(i as int));
                assert(dead@.take(i + 1).last() == peer);
            }
            routes::drop_route(&mut self.routes, peer);
            self.active.remove(&peer);
            i = i + 1;
        }
        proof {
            assert(dead@.take(i as int) =~= dead@);
            lemma_without_peers_wf(m, dead@);
        }
    }

    /// Clean up expired pending connections.
    pub fn cleanup_pending_connections(&mut self, now: u64, timeout: u64)
        requires
            old(self).wf(),
        ensures
            final(self).wf(),
            final(self)@ == (TableModel {
                pending: younger(old(self)@.pending, now, timeout),
                ..old(self)@
            }),
    {
        let ghost all = self@.pending;
        proof {
            lemma_younger(all, now, timeout);
        }
        let mut kept: Vec<IncomingConnection> = Vec::new();
        let mut i: usize = 0;
        assert(pending_models(kept@) =~= younger(all.take(0), now, timeout));
        while i < self.pending.len()
            invariant
                i <= self.pending@.len(),
                all == pending_models(self.pending@),
                self@ == old(self)@,
                pending_models(kept@) == younger(all.take(i as int), now, timeout),
            decreases self.pending@.len() - i,
        {
            proof {
                assert(all.take(i + 1).drop_last() =~= all.take(i as int));
                assert(all.take(i + 1).last() == all[i as int]);
            }
            let created_at: u64 = self.pending[i].created_at;
            let elapsed: u64 = if now < created_at {
                0
            } else {
                now - created_at
            };
            if elapsed < timeout {
                let entry = self.pending[i].clone();
                let ghost before = kept@;
                kept.push(entry);
                assert(pending_models(kept@) =~= pending_models(before).push(entry@));
            }
            i = i + 1;
        }
        assert(all.take(i as int) =~= all);
        self.pending = kept;
    }
}

/// A packet that opens a connection opens one for its peer, with the conversation that its first
/// four bytes give and the whole packet; the peer waits from then on; and no further packet of the
/// peer opens another, whether or not a stream is there to take it.
pub proof fn law_connection_opens_once(
    m: TableModel,
    peer: u64,
    data: Seq<u8>,
    more: Seq<u8>,
    now: u64,
)
    requires
        m.admits(peer, data),
    ensures
        ({
            let c = TableModel::opening(peer, data, now);
            let after = m.with_opened(peer, data, now);
            &&& c.peer == peer
            &&& c.conv as nat == endian::le_value(data.take(4))
            &&& c.handshake_data == data
            &&& after.pending.len() == m.pending.len() + 1
            &&& after.is_pending(peer)
            &&& !after.admits(peer, more)
            &&& !after.opens(peer, more)
        }),
{
    let after = m.with_opened(peer, data, now);
    assert(after.pending[m.pending.len() as int].peer == peer);
    let word = data.take(4);
    assert(data.subrange(0, 4) =~= word);
    endian::lemma_le_value_inverse(word);
    endian::lemma_le_limits();
}

/// A peer that has been accepted opens no connection until it has been forgotten; one that has
/// been forgotten may.
pub proof fn law_forgotten_peer_may_return(m: TableModel, peer: u64, stream: u64, data: Seq<u8>)
    requires
        m.wf(),
        data.len() >= 24,
        m.is_pending(peer),
    ensures
        ({
            let accepted = TableModel {
                pending: of_others(m.pending, peer),
                accepting: m.accepting.remove(peer),
                active: m.active.insert(peer),
                routes: m.routes.insert(peer, stream),
            };
            &&& !accepted.opens(peer, data)
            &&& accepted.without_peers(seq![peer]).opens(peer, data)
        }),
{
    let accepted = TableModel {
        pending: of_others(m.pending, peer),
        accepting: m.accepting.remove(peer),
        active: m.active.insert(peer),
        routes: m.routes.insert(peer, stream),
    };
    lemma_of_others(m.pending, peer);
    let gone = accepted.without_peers(seq![peer]);
    let one = seq![peer];
    assert(one.drop_last() =~= Seq::empty());
    assert(accepted.without_peers(one.drop_last()) == accepted);
    assert(gone.pending == accepted.pending);
    assert(!gone.is_pending(peer));
}

/// A packet opens a connection when it can hold a segment, no stream takes the packets of its peer,
/// and the peer neither waits to be accepted, nor is being accepted, nor is active. The connection
/// is that of the conversation in the packet's first four bytes, and waits behind the others.
pub proof fn law_packets_open_connections(m: TableModel, peer: u64, data: Seq<u8>, now: u64)
    ensures
        m.admits(peer, data) <==> data.len() >= 24 && !m.active.contains(peer)
            && !m.accepting.contains(peer) && forall|i: int|
            0 <= i < m.pending.len() ==> (#[trigger] m.pending[i]).peer != peer,
        m.opens(peer, data) <==> m.admits(peer, data) && !m.routes.dom().contains(peer),
        ({
            let c = TableModel::opening(peer, data, now);
            let after = m.with_opened(peer, data, now);
            &&& c.peer == peer
            &&& data.len() >= 24 ==> c.conv == data[0] + 0x100 * data[1] + 0x1_0000 * data[2]
                + 0x100_0000 * data[3]
            &&& c.handshake_data == data
            &&& c.created_at == now
            &&& after.pending == m.pending.push(c)
            &&& after.accepting == m.accepting
            &&& after.active == m.active
            &&& after.routes == m.routes
        }),
{
    if data.len() >= 24 {
        crate::engine::filling::law_word(data, 0);
    }
}

/// Only the connections of the peer leave; the others stay, in order.
pub proof fn law_only_the_peer_is_forgotten(
    pending: Seq<IncomingModel>,
    last: IncomingModel,
    peer: u64,
)
    ensures
        of_others(Seq::empty(), peer).len() == 0,
        last.peer == peer ==> of_others(pending.push(last), peer) == of_others(pending, peer),
        last.peer != peer ==> of_others(pending.push(last), peer) == of_others(
            pending,
            peer,
        ).push(last),
{
    assert(pending.push(last).drop_last() =~= pending);
}

/// A connection that has waited for as long as the timeout leaves; one that has not stays, in
/// order.
pub proof fn law_old_connections_leave(
    pending: Seq<IncomingModel>,
    last: IncomingModel,
    now: u64,
    timeout: u64,
)
    requires
        timeout > 0,
    ensures
        younger(Seq::empty(), now, timeout).len() == 0,
        now >= last.created_at + timeout ==> younger(pending.push(last), now, timeout) == younger(
            pending,
            now,
            timeout,
        ),
        now < last.created_at + timeout ==> younger(pending.push(last), now, timeout) == younger(
            pending,
            now,
            timeout,
        ).push(last),
{
    assert(pending.push(last).drop_last() =~= pending);
}

/// Cleaning up after dead streams forgets their peers, and no others.
pub proof fn law_dead_streams_leave(m: TableModel, dead: Seq<u64>, peer: u64)
    ensures
        ({
            let after = m.without_peers(dead);
            &&& after.active.contains(peer) <==> m.active.contains(peer) && !dead.contains(peer)
            &&& after.routes.dom().contains(peer) <==> m.routes.dom().contains(peer)
                && !dead.contains(peer)
            &&& after.routes.dom().contains(peer) ==> after.routes[peer] == m.routes[peer]
            &&& after.pending == m.pending
            &&& after.accepting == m.accepting
        }),
    decreases dead.len(),
{
    if dead.len() > 0 {
        let front = dead.drop_last();
        law_dead_streams_leave(m, front, peer);
        if front.contains(peer) {
            let i = choose|i: int| 0 <= i < front.len() && front[i] == peer;
            assert(dead[i] == peer);
        }
        if dead.last() == peer {
            assert(dead[dead.len() - 1] == peer);
        }
        if dead.contains(peer) && dead.last() != peer {
            let i = choose|i: int| 0 <= i < dead.len() && dead[i] == peer;
            assert(front[i] == peer);
        }
    }
}

/// A peer is known while it waits to be accepted, is being accepted, or is active.
pub proof fn law_known_peers(m: TableModel, peer: u64)
    ensures
        !m.knows(peer) <==> !m.active.contains(peer) && !m.accepting.contains(peer) && forall|
            i: int,
        |
            0 <= i < m.pending.len() ==> (#[trigger] m.pending[i]).peer != peer,
{
}

} // verus!
