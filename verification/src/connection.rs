//! Connection management and multiplexing: single connections, and the table of all of them.
//!
//! Peers are known by numbers.
use crate::actor::Moment;
use crate::buffers;
use crate::config::{KcpConfig, KcpCoreConfig};
use crate::engine;
use crate::engine::{EngineModel, KcpEngine};
use crate::error::{ConnectionError, KcpError, KcpResult};
use crate::protocol::{ConvId, KcpStats};
use bytes::Bytes;
use std::collections::{HashMap, VecDeque};
use vstd::prelude::*;

pub mod managing;

verus! {

/// How long a connection may be idle where the configuration does not say, in milliseconds.
pub const DEFAULT_IDLE_MS: u64 = 300_000;

/// Connection state.
#[derive(Debug, Clone, Copy, PartialEq, Eq, Structural)]
pub enum ConnectionState {
    /// Connection is being established
    Connecting,
    /// Connection is active and ready for data transfer
    Connected,
    /// Connection is being closed gracefully
    Closing,
    /// Connection is closed
    Closed,
    /// Connection failed due to error
    Failed,
}

/// Connection information.
#[derive(Debug, Clone, Copy, PartialEq, Eq, Structural)]
pub struct ConnectionInfo {
    /// The conversation
    pub conv: ConvId,
    /// The peer
    pub peer: u64,
    /// When the connection was made
    pub created_at: u64,
}

/// Represents a single KCP connection.
pub struct KcpConnection {
    conv: ConvId,
    peer: u64,
    engine: KcpEngine,
    state: ConnectionState,
    created_at: u64,
    last_activity: u64,
    stats: KcpStats,
}

/// What a connection stands for.
#[verifier::ext_equal]
pub struct ConnectionModel {
    /// The conversation
    pub conv: ConvId,
    /// The peer
    pub peer: u64,
    /// The engine
    pub engine: EngineModel,
    /// The state
    pub state: ConnectionState,
    /// When the connection was made
    pub created_at: u64,
    /// When data last went through it
    pub last_activity: u64,
    /// Statistics of the last update
    pub stats: KcpStats,
}

impl View for KcpConnection {
    type V = ConnectionModel;

    closed spec fn view(&self) -> ConnectionModel {
        ConnectionModel {
            conv: self.conv,
            peer: self.peer,
            engine: self.engine@,
            state: self.state,
            created_at: self.created_at,
            last_activity: self.last_activity,
            stats: self.stats,
        }
    }
}

/// How long ago something was.
pub open spec fn elapsed(since: u64, now: u64) -> int {
    if now < since {
        0
    } else {
        now - since
    }
}

impl ConnectionModel {
    /// What holds of every connection.
    pub open spec fn wf(self) -> bool {
        self.engine.wf()
    }

    /// A new connection.
    pub open spec fn fresh(conv: ConvId, peer: u64, config: KcpCoreConfig, at: Moment) -> Self {
        ConnectionModel {
            conv,
            peer,
            engine: EngineModel::fresh(conv, config, at.wall),
            state: ConnectionState::Connecting,
            created_at: at.instant,
            last_activity: at.instant,
            stats: KcpStats::zero(),
        }
    }

    /// Data can be sent.
    pub open spec fn can_send(self, data: Seq<u8>) -> bool {
        self.state is Connected && self.engine.accepts(data.len() as int)
    }

    /// Sending data gives the link up: data is flushed at once.
    pub open spec fn send_gives_up(self, data: Seq<u8>, at: Moment) -> bool {
        data.len() > 0 && self.engine.queued(data).gives_up(at.wall)
    }

    /// Sending data succeeds.
    pub open spec fn sends(self, data: Seq<u8>, at: Moment) -> bool {
        self.can_send(data) && !self.send_gives_up(data, at)
    }

    /// Data that is not sent brings this error.
    pub open spec fn refusal(self, data: Seq<u8>, e: KcpError) -> bool {
        if !(self.state is Connected) {
            e == (KcpError::Connection { kind: ConnectionError::NotConnected })
        } else if !self.can_send(data) {
            e.is_buffer("Message too large for window"@)
        } else {
            e == (KcpError::Connection { kind: ConnectionError::Lost })
        }
    }

    /// Data has been sent, as far as it can be: queued, and flushed at once.
    pub open spec fn sent(self, data: Seq<u8>, at: Moment) -> Self {
        if self.can_send(data) {
            let queued = self.engine.queued(data);
            ConnectionModel {
                engine: if data.len() > 0 {
                    queued.flushed(at.wall)
                } else {
                    queued
                },
                last_activity: if self.send_gives_up(data, at) {
                    self.last_activity
                } else {
                    at.instant
                },
                ..self
            }
        } else {
            self
        }
    }

    /// What is told of a connection.
    pub open spec fn info(self) -> ConnectionInfo {
        ConnectionInfo { conv: self.conv, peer: self.peer, created_at: self.created_at }
    }

    /// The application has asked for a message.
    pub open spec fn received(self, at: Moment) -> Self {
        if self.engine.has_message() {
            ConnectionModel {
                engine: self.engine.received(),
                last_activity: at.instant,
                ..self
            }
        } else {
            self
        }
    }

    /// The packet is one that the engine takes in whole.
    pub open spec fn takes(self, packet: Seq<u8>, at: Moment) -> bool {
        packet.len() >= 24 && !engine::input::digest(
            self.engine,
            engine::input::parse_packet(packet),
            None,
            at.wall,
        ).foreign
    }

    /// A packet that is not taken in whole brings this error.
    pub open spec fn complaint(packet: Seq<u8>, e: KcpError) -> bool {
        e.is_protocol(
            if packet.len() < 24 {
                "Packet too small"@
            } else {
                "Invalid conversation ID"@
            },
        )
    }

    /// A packet has come in.
    pub open spec fn fed(self, packet: Seq<u8>, at: Moment) -> Self {
        ConnectionModel {
            engine: self.engine.fed(packet, at.wall),
            last_activity: if self.takes(packet, at) {
                at.instant
            } else {
                self.last_activity
            },
            ..self
        }
    }

    /// An update gives the link up.
    pub open spec fn update_gives_up(self, at: Moment) -> bool {
        self.engine.update_due(at.wall) && (EngineModel {
            last_update: at.wall,
            ..self.engine
        }).gives_up(at.wall)
    }

    /// An update fails.
    pub open spec fn update_fails(self, at: Moment) -> bool {
        self.update_gives_up(at) || self.engine.updated(at.wall).dead()
    }

    /// A periodic update.
    pub open spec fn updated(self, at: Moment) -> Self {
        let u = ConnectionModel { engine: self.engine.updated(at.wall), ..self };
        if self.update_gives_up(at) {
            u
        } else if u.engine.dead() {
            ConnectionModel { state: ConnectionState::Failed, ..u }
        } else {
            ConnectionModel { stats: u.engine.stats, ..u }
        }
    }

    /// The connection has been closed, as far as the link lasted.
    pub open spec fn closed(self, at: Moment) -> Self {
        ConnectionModel {
            engine: self.engine.flushed(at.wall),
            state: if self.engine.gives_up(at.wall) {
                ConnectionState::Closing
            } else {
                ConnectionState::Closed
            },
            ..self
        }
    }

    /// No data has gone through the connection for longer than the timeout.
    pub open spec fn idle(self, now: u64, timeout: u64) -> bool {
        elapsed(self.last_activity, now) > timeout
    }

    /// The connection has no more use.
    pub open spec fn stale(self, now: u64, timeout: u64) -> bool {
        self.state is Failed || self.state is Closed || self.idle(now, timeout)
    }

    /// The datagrams have been taken.
    pub open spec fn drained(self) -> Self {
        ConnectionModel { engine: EngineModel { output: Seq::empty(), ..self.engine }, ..self }
    }
}

/// Updates and closing keep a connection well-formed.
proof fn lemma_connection_wf(c: ConnectionModel, at: Moment)
    requires
        c.wf(),
    ensures
        c.updated(at).wf(),
        c.closed(at).wf(),
{
    engine::flushing::lemma_flushed_wf(c.engine, at.wall);
    engine::flushing::lemma_flushed_wf(
        EngineModel { last_update: at.wall, ..c.engine },
        at.wall,
    );
}

impl KcpConnection {
    /// What holds of every connection.
    pub open spec fn wf(&self) -> bool {
        self@.wf()
    }

    /// Create a new connection.
    pub fn new(conv: ConvId, peer: u64, config: KcpCoreConfig, at: Moment) -> (r: Self)
        requires
            config.mtu <= usize::MAX / 8,
        ensures
            r.wf(),
            r@ == ConnectionModel::fresh(conv, peer, config, at),
    {
        KcpConnection {
            conv,
            peer,
            engine: KcpEngine::new_at(conv, config, at.wall),
            state: ConnectionState::Connecting,
            created_at: at.instant,
            last_activity: at.instant,
            stats: KcpStats::default(),
        }
    }

    /// Start the connection.
    pub fn start(&mut self) -> (r: KcpResult<()>)
        requires
            old(self).wf(),
        ensures
            r is Ok,
            final(self).wf(),
            final(self)@ == (ConnectionModel { state: ConnectionState::Connected, ..old(self)@ }),
    {
        match self.engine.start() {
            Err(e) => {
                return Err(KcpError::from(e));
            },
            Ok(()) => {},
        }
        self.state = ConnectionState::Connected;
        Ok(())
    }

    /// Send data through the connection at once.
    pub fn send(&mut self, data: Bytes, at: Moment) -> (r: KcpResult<()>)
        requires
            old(self).wf(),
        ensures
            final(self).wf(),
            final(self)@ == old(self)@.sent(buffers::bytes_of(data), at),
            r is Ok <==> old(self)@.sends(buffers::bytes_of(data), at),
            r matches Err(e) ==> old(self)@.refusal(buffers::bytes_of(data), e),
    {
        match self.state {
            ConnectionState::Connected => {},
            _ => {
                return Err(KcpError::connection(ConnectionError::NotConnected));
            },
        }
        let len: usize = data.len();
        match self.engine.send(data) {
            Err(e) => {
                return Err(KcpError::from(e));
            },
            Ok(()) => {},
        }
        if len > 0 {
            match self.engine.flush_at(at.wall) {
                Err(e) => {
                    return Err(KcpError::from(e));
                },
                Ok(()) => {},
            }
        }
        self.last_activity = at.instant;
        Ok(())
    }

    /// Receive data from the connection.
    pub fn recv(&mut self, at: Moment) -> (r: KcpResult<Option<Bytes>>)
        requires
            old(self).wf(),
        ensures
            final(self).wf(),
            final(self)@ == old(self)@.received(at),
            r is Ok,
            r->Ok_0 is Some <==> old(self)@.engine.has_message(),
            r->Ok_0 matches Some(b) ==> buffers::bytes_of(b) == old(self)@.engine.first_message(),
    {
        match self.engine.recv() {
            Err(e) => Err(KcpError::from(e)),
            Ok(message) => {
                if message.is_some() {
                    self.last_activity = at.instant;
                }
                Ok(message)
            },
        }
    }

    /// Process incoming packet.
    pub fn input(&mut self, data: Bytes, at: Moment) -> (r: KcpResult<()>)
        requires
            old(self).wf(),
        ensures
            final(self).wf(),
            final(self)@ == old(self)@.fed(buffers::bytes_of(data), at),
            r is Ok <==> old(self)@.takes(buffers::bytes_of(data), at),
            r matches Err(e) ==> ConnectionModel::complaint(buffers::bytes_of(data), e),
    {
        match self.engine.input_at(data, at.wall) {
            Err(e) => Err(KcpError::from(e)),
            Ok(()) => {
                self.last_activity = at.instant;
                Ok(())
            },
        }
    }

    /// Update connection state.
    pub fn update(&mut self, at: Moment) -> (r: KcpResult<()>)
        requires
            old(self).wf(),
        ensures
            final(self).wf(),
            final(self)@ == old(self)@.updated(at),
            r is Err <==> old(self)@.update_fails(at),
            r matches Err(e) ==> e == (KcpError::Connection { kind: ConnectionError::Lost }),
    {
        match self.engine.update_at(at.wall) {
            Err(e) => {
                return Err(KcpError::from(e));
            },
            Ok(()) => {},
        }
        if self.engine.is_dead() {
            self.state = ConnectionState::Failed;
            return Err(KcpError::connection(ConnectionError::Lost));
        }
        self.stats = *self.engine.stats();
        Ok(())
    }

    /// Close the connection.
    pub fn close(&mut self, at: Moment) -> (r: KcpResult<()>)
        requires
            old(self).wf(),
        ensures
            final(self).wf(),
            final(self)@ == old(self)@.closed(at),
            r is Err <==> old(self)@.engine.gives_up(at.wall),
            r matches Err(e) ==> e == (KcpError::Connection { kind: ConnectionError::Lost }),
    {
        self.state = ConnectionState::Closing;
        match self.engine.flush_at(at.wall) {
            Err(e) => {
                return Err(KcpError::from(e));
            },
            Ok(()) => {},
        }
        self.state = ConnectionState::Closed;
        Ok(())
    }

    /// Take the datagrams that are ready to leave.
    pub fn take_output(&mut self) -> (r: Vec<Bytes>)
        requires
            old(self).wf(),
        ensures
            final(self).wf(),
            engine::contents(r@) == old(self)@.engine.output,
            final(self)@ == old(self)@.drained(),
    {
        self.engine.drain_output()
    }

    /// Get connection information.
    pub fn info(&self) -> (r: ConnectionInfo)
        ensures
            r == self@.info(),
    {
        ConnectionInfo { conv: self.conv, peer: self.peer, created_at: self.created_at }
    }

    /// Get current state.
    pub fn state(&self) -> (r: ConnectionState)
        ensures
            r == self@.state,
    {
        self.state
    }

    /// Get connection statistics.
    pub fn stats(&self) -> (r: KcpStats)
        ensures
            r == self@.stats,
    {
        self.stats
    }

    /// Check if connection has been idle for too long.
    pub fn is_idle(&self, now: u64, timeout: u64) -> (r: bool)
        ensures
            r == self@.idle(now, timeout),
    {
        now >= self.last_activity && now - self.last_activity > timeout
    }

    /// Check if the connection has no more use.
    fn is_stale(&self, now: u64, timeout: u64) -> (r: bool)
        ensures
            r == self@.stale(now, timeout),
    {
        match self.state {
            ConnectionState::Failed | ConnectionState::Closed => true,
            _ => self.is_idle(now, timeout),
        }
    }
}

/// Datagrams for a peer.
pub struct Outgoing {
    /// The peer
    pub peer: u64,
    /// The datagrams
    pub packets: Vec<Bytes>,
}

impl View for Outgoing {
    type V = (u64, Seq<Seq<u8>>);

    open spec fn view(&self) -> (u64, Seq<Seq<u8>>) {
        (self.peer, engine::contents(self.packets@))
    }
}

/// What datagrams for several peers stand for.
pub open spec fn outgoing_models(s: Seq<Outgoing>) -> Seq<(u64, Seq<Seq<u8>>)> {
    Seq::new(s.len(), |i: int| s[i]@)
}

/// A connection as the manager holds it.
struct Slot {
    link: u64,
    listed: bool,
    connection: KcpConnection,
}

/// What a held connection stands for.
#[verifier::ext_equal]
pub struct SlotModel {
    /// The number under which the connection is held, as long as it is held
    pub link: u64,
    /// The connection is found by its conversation
    pub listed: bool,
    /// The connection
    pub connection: ConnectionModel,
}

impl View for Slot {
    type V = SlotModel;

    closed spec fn view(&self) -> SlotModel {
        SlotModel { link: self.link, listed: self.listed, connection: self.connection@ }
    }
}

/// What several held connections stand for.
closed spec fn slot_models(s: Seq<Slot>) -> Seq<SlotModel> {
    Seq::new(s.len(), |i: int| s[i]@)
}

/// Connection manager for handling multiple KCP connections.
///
/// A connection is listed under its conversation until another one takes its conversation, or it
/// is removed. After that it is no longer found or updated, but whoever has its link can still
/// use it.
pub struct ConnectionManager {
    config: KcpCoreConfig,
    idle_timeout: u64,
    slots: VecDeque<Slot>,
    addr_to_conv: HashMap<u64, u32>,
    next_link: u64,
}

/// What a manager stands for.
#[verifier::ext_equal]
pub struct ManagerModel {
    /// The settings of new connections
    pub config: KcpCoreConfig,
    /// How long a connection may be idle
    pub idle_timeout: u64,
    /// The connections, in the order in which they were made
    pub slots: Seq<SlotModel>,
    /// The conversation of each peer
    pub addr_to_conv: Map<u64, u32>,
    /// The link that the next connection gets, if no other has it
    pub next_link: u64,
}

impl View for ConnectionManager {
    type V = ManagerModel;

    closed spec fn view(&self) -> ManagerModel {
        ManagerModel {
            config: self.config,
            idle_timeout: self.idle_timeout,
            slots: slot_models(self.slots@),
            addr_to_conv: self.addr_to_conv@,
            next_link: self.next_link,
        }
    }
}

impl SlotModel {
    /// The connection is listed under this conversation.
    pub open spec fn answers(self, conv: ConvId) -> bool {
        self.listed && self.connection.conv == conv
    }

    /// The connection is listed and has no more use.
    pub open spec fn expires(self, now: u64, timeout: u64) -> bool {
        self.listed && self.connection.stale(now, timeout)
    }

    /// The connection after a cleanup has looked at it: one of no more use is closed and no
    /// longer listed.
    pub open spec fn swept(self, at: Moment, timeout: u64) -> Self {
        if self.expires(at.instant, timeout) {
            SlotModel {
                listed: false,
                connection: self.connection.closed(at).drained(),
                ..self
            }
        } else {
            self
        }
    }

    /// The connection after a periodic update, which only a listed one gets.
    pub open spec fn updated(self, at: Moment) -> Self {
        if self.listed {
            SlotModel { connection: self.connection.updated(at), ..self }
        } else {
            self
        }
    }

    /// A cleanup lets go of the connection: it is not listed any more, and nobody has its link.
    pub open spec fn released(self, at: Moment, timeout: u64, links: Seq<u64>) -> bool {
        !self.swept(at, timeout).listed && !links.contains(self.link)
    }

    /// What a cleanup sends for the connection: what is left when it is closed, or let go.
    pub open spec fn farewell(self, at: Moment, timeout: u64, links: Seq<u64>) -> Option<
        (u64, Seq<Seq<u8>>),
    > {
        let c = self.connection;
        if self.expires(at.instant, timeout) {
            Some((c.peer, c.closed(at).engine.output))
        } else if self.released(at, timeout, links) {
            Some((c.peer, c.engine.output))
        } else {
            None
        }
    }
}

/// Where the connection stands that is listed under this conversation; the number of connections
/// if there is none.
pub open spec fn place(slots: Seq<SlotModel>, conv: ConvId) -> nat
    decreases slots.len(),
{
    if slots.len() == 0 {
        0
    } else if slots[0].answers(conv) {
        0
    } else {
        1 + place(slots.skip(1), conv)
    }
}

/// Where the connection with this link stands; the number of connections if there is none.
pub open spec fn spot(slots: Seq<SlotModel>, link: u64) -> nat
    decreases slots.len(),
{
    if slots.len() == 0 {
        0
    } else if slots[0].link == link {
        0
    } else {
        1 + spot(slots.skip(1), link)
    }
}

/// The connections that are listed.
pub open spec fn listed(slots: Seq<SlotModel>) -> Seq<ConnectionModel>
    decreases slots.len(),
{
    if slots.len() == 0 {
        Seq::empty()
    } else if slots.last().listed {
        listed(slots.drop_last()).push(slots.last().connection)
    } else {
        listed(slots.drop_last())
    }
}

/// The connections that a cleanup keeps.
pub open spec fn fit(slots: Seq<SlotModel>, at: Moment, timeout: u64, links: Seq<u64>) -> Seq<
    SlotModel,
>
    decreases slots.len(),
{
    if slots.len() == 0 {
        Seq::empty()
    } else {
        let front = fit(slots.drop_last(), at, timeout, links);
        if slots.last().released(at, timeout, links) {
            front
        } else {
            front.push(slots.last().swept(at, timeout))
        }
    }
}

/// The conversations of peers after a cleanup.
pub open spec fn fit_peers(
    peers: Map<u64, u32>,
    slots: Seq<SlotModel>,
    now: u64,
    timeout: u64,
) -> Map<u64, u32>
    decreases slots.len(),
{
    if slots.len() == 0 {
        peers
    } else {
        let front = fit_peers(peers, slots.drop_last(), now, timeout);
        if slots.last().expires(now, timeout) {
            front.remove(slots.last().connection.peer)
        } else {
            front
        }
    }
}

/// What a cleanup sends.
pub open spec fn farewells(
    slots: Seq<SlotModel>,
    at: Moment,
    timeout: u64,
    links: Seq<u64>,
) -> Seq<(u64, Seq<Seq<u8>>)>
    decreases slots.len(),
{
    if slots.len() == 0 {
        Seq::empty()
    } else {
        let front = farewells(slots.drop_last(), at, timeout, links);
        match slots.last().farewell(at, timeout, links) {
            Some(out) => front.push(out),
            None => front,
        }
    }
}

/// The conversations of the listed connections whose update fails.
pub open spec fn failing(slots: Seq<SlotModel>, at: Moment) -> Seq<ConvId>
    decreases slots.len(),
{
    if slots.len() == 0 {
        Seq::empty()
    } else {
        let front = failing(slots.drop_last(), at);
        if slots.last().listed && slots.last().connection.update_fails(at) {
            front.push(slots.last().connection.conv)
        } else {
            front
        }
    }
}

/// All connections are well-formed.
pub open spec fn all_wf(slots: Seq<SlotModel>) -> bool {
    forall|i: int| 0 <= i < slots.len() ==> (#[trigger] slots[i]).connection.wf()
}

/// No two connections are listed under the same conversation.
pub open spec fn one_each(slots: Seq<SlotModel>) -> bool {
    forall|i: int, j: int|
        0 <= i < j < slots.len() && (#[trigger] slots[i]).listed && (#[trigger] slots[j]).listed
            ==> slots[i].connection.conv != slots[j].connection.conv
}

/// No two connections have the same link.
pub open spec fn own_links(slots: Seq<SlotModel>) -> bool {
    forall|i: int, j: int|
        0 <= i < j < slots.len() ==> (#[trigger] slots[i]).link != (#[trigger] slots[j]).link
}

impl ManagerModel {
    /// What holds of every manager.
    pub open spec fn wf(self) -> bool {
        &&& self.config.mtu <= usize::MAX / 8
        &&& all_wf(self.slots)
        &&& one_each(self.slots)
        &&& own_links(self.slots)
    }

    /// A manager without connections.
    pub open spec fn fresh(config: KcpConfig) -> Self {
        ManagerModel {
            config: config.protocol_part(),
            idle_timeout: match config.keep_alive {
                Some(ms) => ms,
                None => DEFAULT_IDLE_MS,
            },
            slots: Seq::empty(),
            addr_to_conv: Map::empty(),
            next_link: 0,
        }
    }

    /// A connection is listed under this conversation.
    pub open spec fn has(self, conv: ConvId) -> bool {
        place(self.slots, conv) < self.slots.len()
    }

    /// The connection that is listed under this conversation.
    pub open spec fn get(self, conv: ConvId) -> ConnectionModel {
        self.slots[place(self.slots, conv) as int].connection
    }

    /// There is a connection with this link.
    pub open spec fn uses(self, link: u64) -> bool {
        spot(self.slots, link) < self.slots.len()
    }

    /// The connection with this link.
    pub open spec fn linked(self, link: u64) -> ConnectionModel {
        self.slots[spot(self.slots, link) as int].connection
    }

    /// A new connection may get this link: the next one, or where that is taken, another one
    /// that is free.
    pub open spec fn may_link(self, link: u64) -> bool {
        &&& !self.uses(link)
        &&& !self.uses(self.next_link) ==> link == self.next_link
    }

    /// The connection that stands at this place has changed.
    pub open spec fn changed(self, i: int, c: ConnectionModel) -> Self {
        ManagerModel {
            slots: self.slots.update(i, SlotModel { connection: c, ..self.slots[i] }),
            ..self
        }
    }

    /// The connection with this link has changed.
    pub open spec fn relinked(self, link: u64, c: ConnectionModel) -> Self {
        self.changed(spot(self.slots, link) as int, c)
    }

    /// The connection with this link has been closed, if there is one.
    pub open spec fn closed(self, link: u64, at: Moment) -> Self {
        if self.uses(link) {
            self.relinked(link, self.linked(link).closed(at))
        } else {
            self
        }
    }

    /// No connection is listed under this conversation any more.
    pub open spec fn unlisted(self, conv: ConvId) -> Self {
        let p = place(self.slots, conv) as int;
        if self.has(conv) {
            ManagerModel {
                slots: self.slots.update(p, SlotModel { listed: false, ..self.slots[p] }),
                ..self
            }
        } else {
            self
        }
    }

    /// A connection to the peer has been made. One that had its conversation before is no longer
    /// listed.
    pub open spec fn connected(self, peer: u64, conv: ConvId, link: u64, at: Moment) -> Self {
        let m = self.unlisted(conv);
        ManagerModel {
            slots: m.slots.push(
                SlotModel {
                    link,
                    listed: true,
                    connection: ConnectionModel {
                        state: ConnectionState::Connected,
                        ..ConnectionModel::fresh(conv, peer, self.config, at)
                    },
                },
            ),
            addr_to_conv: m.addr_to_conv.insert(peer, conv),
            next_link: ((link + 1) % 0x1_0000_0000_0000_0000) as u64,
            ..m
        }
    }

    /// The connection that is listed under this conversation has been closed and removed from
    /// the list, and what it had left to send has been taken.
    pub open spec fn removed(self, conv: ConvId, at: Moment) -> Self {
        let p = place(self.slots, conv) as int;
        let c = self.get(conv);
        ManagerModel {
            addr_to_conv: self.addr_to_conv.remove(c.peer),
            ..self.changed(p, c.closed(at).drained()).unlisted(conv)
        }
    }

    /// The peer has a connection.
    pub open spec fn reaches(self, peer: u64) -> bool {
        self.addr_to_conv.dom().contains(peer) && self.has(self.addr_to_conv[peer])
    }

    /// All listed connections have been updated.
    pub open spec fn updated(self, at: Moment) -> Self {
        ManagerModel {
            slots: Seq::new(self.slots.len(), |i: int| self.slots[i].updated(at)),
            ..self
        }
    }

    /// Listed connections of no more use have been closed and removed from the list, and
    /// connections that are not listed have been let go unless their link is among these.
    pub open spec fn cleaned(self, at: Moment, links: Seq<u64>) -> Self {
        ManagerModel {
            slots: fit(self.slots, at, self.idle_timeout, links),
            addr_to_conv: fit_peers(
                self.addr_to_conv,
                self.slots,
                at.instant,
                self.idle_timeout,
            ),
            ..self
        }
    }

    /// The datagrams of all connections have been taken.
    pub open spec fn drained(self) -> Self {
        ManagerModel {
            slots: Seq::new(
                self.slots.len(),
                |i: int|
                    SlotModel {
                        connection: self.slots[i].connection.drained(),
                        ..self.slots[i]
                    },
            ),
            ..self
        }
    }
}

/// Where a listed connection stands.
pub proof fn lemma_place(slots: Seq<SlotModel>, conv: ConvId)
    ensures
        place(slots, conv) <= slots.len(),
        place(slots, conv) < slots.len() ==> slots[place(slots, conv) as int].answers(conv),
        forall|i: int| 0 <= i < place(slots, conv) ==> !(#[trigger] slots[i]).answers(conv),
    decreases slots.len(),
{
    if slots.len() > 0 && !slots[0].answers(conv) {
        let rest = slots.skip(1);
        lemma_place(rest, conv);
        assert forall|i: int| 0 <= i < place(slots, conv) implies !(#[trigger] slots[i]).answers(
            conv,
        ) by {
            if i > 0 {
                assert(rest[i - 1] == slots[i]);
            }
        }
    }
}

/// The first connection that is listed under the conversation is where the place says.
proof fn lemma_place_is(slots: Seq<SlotModel>, conv: ConvId, p: int)
    requires
        0 <= p <= slots.len(),
        p < slots.len() ==> slots[p].answers(conv),
        forall|i: int| 0 <= i < p ==> !(#[trigger] slots[i]).answers(conv),
    ensures
        place(slots, conv) == p,
{
    lemma_place(slots, conv);
    let q = place(slots, conv) as int;
    if q < p {
        assert(!slots[q].answers(conv));
    }
    if p < q {
        assert(!slots[p].answers(conv));
    }
}

/// Where a connection stands.
pub proof fn lemma_spot(slots: Seq<SlotModel>, link: u64)
    ensures
        spot(slots, link) <= slots.len(),
        spot(slots, link) < slots.len() ==> slots[spot(slots, link) as int].link == link,
        forall|i: int| 0 <= i < spot(slots, link) ==> (#[trigger] slots[i]).link != link,
    decreases slots.len(),
{
    if slots.len() > 0 && slots[0].link != link {
        let rest = slots.skip(1);
        lemma_spot(rest, link);
        assert forall|i: int| 0 <= i < spot(slots, link) implies (#[trigger] slots[i]).link
            != link by {
            if i > 0 {
                assert(rest[i - 1] == slots[i]);
            }
        }
    }
}

/// The first connection with the link is where the spot says.
proof fn lemma_spot_is(slots: Seq<SlotModel>, link: u64, p: int)
    requires
        0 <= p <= slots.len(),
        p < slots.len() ==> slots[p].link == link,
        forall|i: int| 0 <= i < p ==> (#[trigger] slots[i]).link != link,
    ensures
        spot(slots, link) == p,
{
    lemma_spot(slots, link);
    let q = spot(slots, link) as int;
    if q < p {
        assert(slots[q].link != link);
    }
    if p < q {
        assert(slots[p].link != link);
    }
}

/// Connections with the same links stand at the same spots.
proof fn lemma_same_spots(a: Seq<SlotModel>, b: Seq<SlotModel>, link: u64)
    requires
        a.len() <= b.len(),
        forall|i: int| 0 <= i < a.len() ==> (#[trigger] a[i]).link == (#[trigger] b[i]).link,
        spot(a, link) < a.len() || a.len() == b.len(),
    ensures
        spot(b, link) == spot(a, link),
{
    lemma_spot(a, link);
    let p = spot(a, link) as int;
    assert forall|i: int| 0 <= i < p implies (#[trigger] b[i]).link != link by {
        assert(a[i].link == b[i].link);
    }
    if p < a.len() {
        assert(a[p].link == b[p].link);
    }
    lemma_spot_is(b, link, p);
}

/// Some link is free that is no larger than the number of connections.
proof fn lemma_free_link(slots: Seq<SlotModel>)
    requires
        slots.len() <= u64::MAX,
    ensures
        exists|l: u64| l <= slots.len() && #[trigger] spot(slots, l) >= slots.len(),
{
    let n = slots.len() as int;
    if forall|l: u64| l <= n ==> #[trigger] spot(slots, l) < slots.len() {
        let links = Seq::new(slots.len(), |i: int| slots[i].link as int);
        let range = vstd::set_lib::set_int_range(0, n + 1);
        vstd::set_lib::lemma_int_range(0, n + 1);
        links.lemma_cardinality_of_set();
        assert forall|x: int| range.contains(x) implies links.to_set().contains(x) by {
            let l = x as u64;
            lemma_spot(slots, l);
            assert(spot(slots, l) < slots.len());
            assert(links[spot(slots, l) as int] == x);
        }
        vstd::set_lib::lemma_len_subset(range, links.to_set());
    }
}

/// A change of one connection that leaves its conversation alone keeps what holds of a manager.
proof fn lemma_changed(m: ManagerModel, i: int, c: ConnectionModel)
    requires
        m.wf(),
        0 <= i < m.slots.len(),
        c.wf(),
        c.conv == m.slots[i].connection.conv,
    ensures
        m.changed(i, c).wf(),
        m.changed(i, c).slots.len() == m.slots.len(),
        forall|l: u64| (#[trigger] spot(m.changed(i, c).slots, l)) == spot(m.slots, l),
        forall|v: ConvId| (#[trigger] place(m.changed(i, c).slots, v)) == place(m.slots, v),
{
    let after = m.changed(i, c).slots;
    assert forall|k: int| 0 <= k < after.len() implies (#[trigger] after[k]).connection.wf()
        && after[k].connection.conv == m.slots[k].connection.conv && after[k].listed
        == m.slots[k].listed && after[k].link == m.slots[k].link by {
        assert(m.slots[k].connection.wf());
    }
    assert forall|l: u64| (#[trigger] spot(after, l)) == spot(m.slots, l) by {
        lemma_same_spots(m.slots, after, l);
    }
    assert forall|v: ConvId| (#[trigger] place(after, v)) == place(m.slots, v) by {
        lemma_place(m.slots, v);
        let p = place(m.slots, v) as int;
        assert forall|k: int| 0 <= k < p implies !(#[trigger] after[k]).answers(v) by {
            assert(!m.slots[k].answers(v));
        }
        lemma_place_is(after, v, p);
    }
}

/// Taking a connection off the list keeps what holds of a manager, and every link.
proof fn lemma_unlisted(m: ManagerModel, conv: ConvId)
    requires
        m.wf(),
    ensures
        m.unlisted(conv).wf(),
        m.unlisted(conv).slots.len() == m.slots.len(),
        forall|k: int|
            0 <= k < m.slots.len() ==> (#[trigger] m.unlisted(conv).slots[k]).link
                == m.slots[k].link && m.unlisted(conv).slots[k].connection == m.slots[k].connection
                && !m.unlisted(conv).slots[k].answers(conv),
{
    let after = m.unlisted(conv).slots;
    let p = place(m.slots, conv) as int;
    lemma_place(m.slots, conv);
    assert forall|k: int| 0 <= k < m.slots.len() implies (#[trigger] after[k]).link
        == m.slots[k].link && after[k].connection == m.slots[k].connection && (after[k].listed
        ==> m.slots[k].listed) && !after[k].answers(conv) by {
        if k < p {
            assert(!m.slots[k].answers(conv));
        } else if k > p && m.has(conv) {
            assert(m.slots[p].answers(conv));
        }
    }
    assert forall|k: int| 0 <= k < after.len() implies (#[trigger] after[k]).connection.wf() by {
        assert(m.slots[k].connection.wf());
    }
}

/// Removing a connection from the list keeps what holds of a manager.
proof fn lemma_removed(m: ManagerModel, conv: ConvId, at: Moment)
    requires
        m.wf(),
        m.has(conv),
    ensures
        m.removed(conv, at).wf(),
        ({
            let p = place(m.slots, conv) as int;
            m.removed(conv, at).slots == m.slots.update(
                p,
                SlotModel {
                    listed: false,
                    connection: m.get(conv).closed(at).drained(),
                    ..m.slots[p]
                },
            )
        }),
{
    let p = place(m.slots, conv) as int;
    let c = m.get(conv).closed(at).drained();
    assert(m.slots[p].connection.wf());
    lemma_connection_wf(m.get(conv), at);
    lemma_changed(m, p, c);
    lemma_unlisted(m.changed(p, c), conv);
    assert(place(m.changed(p, c).slots, conv) == p);
}

/// A new connection keeps what holds of a manager, and every other connection with its link.
proof fn lemma_connected(m: ManagerModel, peer: u64, conv: ConvId, link: u64, at: Moment)
    requires
        m.wf(),
        m.may_link(link),
    ensures
        m.connected(peer, conv, link, at).wf(),
        forall|l: u64|
            m.uses(l) ==> (#[trigger] m.connected(peer, conv, link, at).uses(l)) && m.connected(
                peer,
                conv,
                link,
                at,
            ).linked(l) == m.linked(l),
        spot(m.connected(peer, conv, link, at).slots, link) == m.slots.len(),
        place(m.connected(peer, conv, link, at).slots, conv) == m.slots.len(),
{
    let u = m.unlisted(conv);
    let n = m.slots.len() as int;
    let after = m.connected(peer, conv, link, at).slots;
    lemma_unlisted(m, conv);
    lemma_spot(m.slots, link);
    engine::lifecycle::lemma_fresh_wf(conv, m.config, at.wall);
    assert forall|k: int| 0 <= k < n implies (#[trigger] after[k]) == u.slots[k] && after[k].link
        != link && !after[k].answers(conv) by {
        assert(u.slots[k].link == m.slots[k].link);
        assert(m.slots[k].link != link);
    }
    assert forall|k: int| 0 <= k < after.len() implies (#[trigger] after[k]).connection.wf() by {
        if k < n {
            assert(after[k] == u.slots[k]);
        }
    }
    assert forall|l: u64| m.uses(l) implies (#[trigger] m.connected(
        peer,
        conv,
        link,
        at,
    ).uses(l)) && m.connected(peer, conv, link, at).linked(l) == m.linked(l) by {
        assert forall|i: int| 0 <= i < n implies (#[trigger] m.slots[i]).link == (
        #[trigger] after[i]).link by {
            assert(after[i] == u.slots[i]);
        }
        lemma_same_spots(m.slots, after, l);
        let p = spot(m.slots, l) as int;
        assert(after[p] == u.slots[p]);
    }
    lemma_spot_is(after, link, n);
    lemma_place_is(after, conv, n);
}

/// A cleanup keeps connections well-formed, and makes up none.
proof fn lemma_fit_origin(slots: Seq<SlotModel>, at: Moment, timeout: u64, links: Seq<u64>)
    requires
        all_wf(slots),
    ensures
        all_wf(fit(slots, at, timeout, links)),
        forall|i: int|
            0 <= i < fit(slots, at, timeout, links).len() ==> swept_from(
                #[trigger] fit(slots, at, timeout, links)[i],
                slots,
                at,
                timeout,
            ),
    decreases slots.len(),
{
    if slots.len() > 0 {
        let front = slots.drop_last();
        assert forall|i: int| 0 <= i < front.len() implies (
        #[trigger] front[i]).connection.wf() by {
            assert(slots[i].connection.wf());
        }
        lemma_fit_origin(front, at, timeout, links);
        let f = fit(front, at, timeout, links);
        let o = fit(slots, at, timeout, links);
        let last = slots[slots.len() - 1];
        assert(last.connection.wf());
        lemma_swept_wf(last, at, timeout);
        assert forall|i: int| 0 <= i < o.len() implies swept_from(#[trigger] o[i], slots, at, timeout)
            && o[i].connection.wf() by {
            if i < f.len() {
                assert(o[i] == f[i]);
                assert(swept_from(f[i], front, at, timeout));
                let j = choose|j: int|
                    0 <= j < front.len() && f[i] == (#[trigger] front[j]).swept(at, timeout);
                assert(slots[j] == front[j]);
            } else {
                assert(o[i] == slots[slots.len() - 1].swept(at, timeout));
            }
        }
    }
}

/// A connection that a cleanup has looked at is well-formed, and has its link and conversation.
proof fn lemma_swept_wf(slot: SlotModel, at: Moment, timeout: u64)
    requires
        slot.connection.wf(),
    ensures
        slot.swept(at, timeout).connection.wf(),
        slot.swept(at, timeout).link == slot.link,
        slot.swept(at, timeout).connection.conv == slot.connection.conv,
        slot.swept(at, timeout).listed ==> slot.listed,
{
    lemma_connection_wf(slot.connection, at);
}

/// A cleanup keeps what holds of connections.
proof fn lemma_fit(slots: Seq<SlotModel>, at: Moment, timeout: u64, links: Seq<u64>)
    requires
        all_wf(slots),
        one_each(slots),
        own_links(slots),
    ensures
        all_wf(fit(slots, at, timeout, links)),
        one_each(fit(slots, at, timeout, links)),
        own_links(fit(slots, at, timeout, links)),
        forall|i: int|
            0 <= i < fit(slots, at, timeout, links).len() ==> swept_from(
                #[trigger] fit(slots, at, timeout, links)[i],
                slots,
                at,
                timeout,
            ),
    decreases slots.len(),
{
    lemma_fit_origin(slots, at, timeout, links);
    if slots.len() > 0 {
        let front = slots.drop_last();
        assert forall|i: int| 0 <= i < front.len() implies (
        #[trigger] front[i]).connection.wf() by {
            assert(slots[i].connection.wf());
        }
        lemma_fit(front, at, timeout, links);
        let f = fit(front, at, timeout, links);
        let o = fit(slots, at, timeout, links);
        let last = slots[slots.len() - 1];
        assert(last.connection.wf());
        lemma_swept_wf(last, at, timeout);
        assert forall|i: int, j: int| 0 <= i < j < o.len() implies (#[trigger] o[i]).link != (
        #[trigger] o[j]).link && (o[i].listed && o[j].listed ==> o[i].connection.conv
            != o[j].connection.conv) by {
            assert(o[i] == f[i]);
            if j < f.len() {
                assert(o[j] == f[j]);
            } else {
                assert(swept_from(f[i], front, at, timeout));
                let k = choose|k: int|
                    0 <= k < front.len() && f[i] == (#[trigger] front[k]).swept(at, timeout);
                assert(slots[k] == front[k]);
                lemma_swept_wf(slots[k], at, timeout);
                assert(slots[k].link != last.link);
                assert(o[j] == last.swept(at, timeout));
            }
        }
    }
}

/// The connection is one of these, after a cleanup has looked at it.
pub open spec fn swept_from(
    slot: SlotModel,
    slots: Seq<SlotModel>,
    at: Moment,
    timeout: u64,
) -> bool {
    exists|j: int| 0 <= j < slots.len() && slot == (#[trigger] slots[j]).swept(at, timeout)
}

/// A connection that a cleanup does not let go of is kept.
proof fn lemma_fit_keeps(
    slots: Seq<SlotModel>,
    at: Moment,
    timeout: u64,
    links: Seq<u64>,
    i: int,
) -> (j: int)
    requires
        0 <= i < slots.len(),
        !slots[i].released(at, timeout, links),
    ensures
        0 <= j < fit(slots, at, timeout, links).len(),
        fit(slots, at, timeout, links)[j] == slots[i].swept(at, timeout),
    decreases slots.len(),
{
    let front = slots.drop_last();
    if i < front.len() {
        assert(front[i] == slots[i]);
        let j = lemma_fit_keeps(front, at, timeout, links, i);
        assert(fit(slots, at, timeout, links)[j] == fit(front, at, timeout, links)[j]);
        j
    } else {
        fit(front, at, timeout, links).len() as int
    }
}

/// A cleanup keeps every connection whose link is among those it is told, as it is or closed.
pub proof fn lemma_cleaned(m: ManagerModel, at: Moment, links: Seq<u64>, link: u64)
    requires
        m.wf(),
        m.uses(link),
        links.contains(link),
    ensures
        m.cleaned(at, links).wf(),
        m.cleaned(at, links).uses(link),
        m.cleaned(at, links).linked(link) == m.linked(link) || m.cleaned(at, links).linked(link)
            == m.linked(link).closed(at).drained(),
{
    let p = spot(m.slots, link) as int;
    lemma_spot(m.slots, link);
    lemma_fit(m.slots, at, m.idle_timeout, links);
    let after = m.cleaned(at, links).slots;
    let j = lemma_fit_keeps(m.slots, at, m.idle_timeout, links, p);
    assert(after[j].link == link);
    lemma_spot(after, link);
    let q = spot(after, link) as int;
    assert(q <= j);
    if q < j {
        assert(after[q].link != after[j].link);
    }
}

/// Taking the first connection out of a queue.
proof fn lemma_slots_front(s: Seq<Slot>)
    requires
        s.len() > 0,
    ensures
        slot_models(s.subrange(1, s.len() as int)) == slot_models(s).skip(1),
        slot_models(s)[0] == s[0]@,
{
    assert(slot_models(s.subrange(1, s.len() as int)) =~= slot_models(s).skip(1));
}

/// Whether a link is among these.
fn has_link(links: &Vec<u64>, link: u64) -> (r: bool)
    ensures
        r == links@.contains(link),
{
    let mut i: usize = 0;
    while i < links.len()
        invariant
            i <= links@.len(),
            forall|k: int| 0 <= k < i ==> (#[trigger] links@[k]) != link,
        decreases links@.len() - i,
    {
        if links[i] == link {
            return true;
        }
        i = i + 1;
    }
    false
}

impl ConnectionManager {
    /// What holds of every manager.
    pub open spec fn wf(&self) -> bool {
        self@.wf()
    }

    /// Create a new connection manager.
    pub fn new(config: &KcpConfig) -> (r: Self)
        requires
            config.mtu <= usize::MAX / 8,
        ensures
            r.wf(),
            r@ == ManagerModel::fresh(*config),
    {
        let idle_timeout: u64 = match config.keep_alive {
            Some(ms) => ms,
            None => DEFAULT_IDLE_MS,
        };
        let r = ConnectionManager {
            config: KcpCoreConfig::from(*config),
            idle_timeout,
            slots: VecDeque::new(),
            addr_to_conv: HashMap::new(),
            next_link: 0,
        };
        assert(r@.slots =~= Seq::empty());
        r
    }

    /// Where the connection stands that is listed under this conversation.
    fn find(&self, conv: ConvId) -> (r: usize)
        ensures
            r == place(self@.slots, conv),
            r <= self@.slots.len(),
            self@.slots.len() == self.slots@.len(),
    {
        let mut i: usize = 0;
        let mut found = false;
        while i < self.slots.len() && !found
            invariant
                i <= self.slots@.len(),
                found ==> i < self.slots@.len() && self@.slots[i as int].answers(conv),
                forall|k: int| 0 <= k < i ==> !(#[trigger] self@.slots[k]).answers(conv),
            decreases self.slots@.len() - i + (if found { 0int } else { 1int }),
        {
            assert(self@.slots[i as int] == self.slots@[i as int]@);
            if self.slots[i].listed && self.slots[i].connection.conv == conv {
                found = true;
            } else {
                i = i + 1;
            }
        }
        proof {
            lemma_place_is(self@.slots, conv, i as int);
        }
        i
    }

    /// Where the connection with this link stands.
    fn find_link(&self, link: u64) -> (r: usize)
        ensures
            r == spot(self@.slots, link),
            r <= self@.slots.len(),
            self@.slots.len() == self.slots@.len(),
    {
        let mut i: usize = 0;
        let mut found = false;
        while i < self.slots.len() && !found
            invariant
                i <= self.slots@.len(),
                found ==> i < self.slots@.len() && self@.slots[i as int].link == link,
                forall|k: int| 0 <= k < i ==> (#[trigger] self@.slots[k]).link != link,
            decreases self.slots@.len() - i + (if found { 0int } else { 1int }),
        {
            assert(self@.slots[i as int] == self.slots@[i as int]@);
            if self.slots[i].link == link {
                found = true;
            } else {
                i = i + 1;
            }
        }
        proof {
            lemma_spot_is(self@.slots, link, i as int);
        }
        i
    }

    /// A link for a new connection.
    fn free_link(&self) -> (r: u64)
        ensures
            self@.may_link(r),
    {
        if self.find_link(self.next_link) >= self.slots.len() {
            return self.next_link;
        }
        let mut c: u64 = 0;
        while self.find_link(c) < self.slots.len()
            invariant
                self@.uses(self@.next_link),
                self@.slots.len() == self.slots@.len(),
                c <= self.slots@.len(),
                forall|l: u64| l < c ==> #[trigger] spot(self@.slots, l) < self@.slots.len(),
            decreases self.slots@.len() - c,
        {
            let len: usize = self.slots.len();
            proof {
                assert(len as u64 == self.slots@.len());
                assert(spot(self@.slots, c) < self@.slots.len());
                lemma_free_link(self@.slots);
            }
            c = c + 1;
        }
        c
    }

    /// Takes out what stands at this place.
    fn take_slot(&mut self, i: usize) -> (r: Option<Slot>)
        ensures
            r is Some <==> i < old(self)@.slots.len(),
            r is None ==> final(self)@ == old(self)@,
            r matches Some(slot) ==> slot@ == old(self)@.slots[i as int] && final(self)@ == (
            ManagerModel { slots: old(self)@.slots.remove(i as int), ..old(self)@ }),
    {
        let ghost m = self@;
        if i >= self.slots.len() {
            return None;
        }
        let r = self.slots.remove(i);
        assert(self@.slots =~= m.slots.remove(i as int));
        r
    }

    /// Puts back at this place what was taken out of it, after a change.
    fn put_slot(&mut self, i: usize, slot: Slot)
        requires
            i <= old(self)@.slots.len(),
        ensures
            final(self)@ == (ManagerModel {
                slots: old(self)@.slots.insert(i as int, slot@),
                ..old(self)@
            }),
    {
        let ghost before = self@.slots;
        self.slots.insert(i, slot);
        assert(self@.slots =~= before.insert(i as int, slot@));
    }

    /// Takes a connection off the list.
    fn unlist(&mut self, conv: ConvId)
        requires
            old(self).wf(),
        ensures
            final(self).wf(),
            final(self)@ == old(self)@.unlisted(conv),
    {
        let ghost m = self@;
        let i: usize = self.find(conv);
        proof {
            lemma_unlisted(m, conv);
        }
        match self.take_slot(i) {
            None => {},
            Some(s) => {
                let mut slot = s;
                slot.listed = false;
                self.put_slot(i, slot);
                assert(self@.slots =~= m.unlisted(conv).slots);
            },
        }
    }

    /// Create a new outgoing connection, and give out its link. A connection that had the
    /// conversation before is no longer found by it.
    pub fn connect(&mut self, peer: u64, conv: ConvId, at: Moment) -> (r: u64)
        requires
            old(self).wf(),
        ensures
            final(self).wf(),
            old(self)@.may_link(r),
            final(self)@ == old(self)@.connected(peer, conv, r, at),
    {
        let ghost m = self@;
        let link: u64 = self.free_link();
        proof {
            lemma_connected(m, peer, conv, link, at);
        }
        let mut connection = KcpConnection::new(conv, peer, self.config, at);
        let _ = connection.start();
        self.unlist(conv);
        let slot = Slot { link, listed: true, connection };
        let ghost before = self@.slots;
        self.slots.push_back(slot);
        self.addr_to_conv.insert(peer, conv);
        self.next_link = link.wrapping_add(1);
        assert(self@.slots =~= before.push(slot@));
        link
    }

    /// Get connection by conversation ID.
    pub fn get_connection(&self, conv: ConvId) -> (r: Option<&KcpConnection>)
        ensures
            r is Some <==> self@.has(conv),
            r matches Some(c) ==> c@ == self@.get(conv),
    {
        let i: usize = self.find(conv);
        if i < self.slots.len() {
            assert(self@.slots[i as int] == self.slots@[i as int]@);
            Some(&self.slots[i].connection)
        } else {
            None
        }
    }

    /// The link of the connection that is listed under this conversation.
    pub fn link_of(&self, conv: ConvId) -> (r: Option<u64>)
        ensures
            r is Some <==> self@.has(conv),
            r matches Some(link) ==> link == self@.slots[place(self@.slots, conv) as int].link,
    {
        let i: usize = self.find(conv);
        if i < self.slots.len() {
            assert(self@.slots[i as int] == self.slots@[i as int]@);
            Some(self.slots[i].link)
        } else {
            None
        }
    }

    /// Get connection by its link.
    pub fn linked_connection(&self, link: u64) -> (r: Option<&KcpConnection>)
        ensures
            r is Some <==> self@.uses(link),
            r matches Some(c) ==> c@ == self@.linked(link),
    {
        let i: usize = self.find_link(link);
        if i < self.slots.len() {
            assert(self@.slots[i as int] == self.slots@[i as int]@);
            Some(&self.slots[i].connection)
        } else {
            None
        }
    }

    /// Get connection by peer address.
    pub fn get_connection_by_addr(&self, peer: u64) -> (r: Option<&KcpConnection>)
        ensures
            r is Some <==> self@.reaches(peer),
            r matches Some(c) ==> c@ == self@.get(self@.addr_to_conv[peer]),
    {
        match self.addr_to_conv.get(&peer) {
            None => None,
            Some(conv) => self.get_connection(*conv),
        }
    }

    /// Send data through the connection with this link.
    pub fn send(&mut self, link: u64, data: Bytes, at: Moment) -> (r: KcpResult<()>)
        requires
            old(self).wf(),
        ensures
            final(self).wf(),
            !old(self)@.uses(link) ==> final(self)@ == old(self)@ && r is Err && r->Err_0 == (
            KcpError::Connection { kind: ConnectionError::NotConnected }),
            old(self)@.uses(link) ==> ({
                let c = old(self)@.linked(link);
                let bytes = buffers::bytes_of(data);
                &&& final(self)@ == old(self)@.relinked(link, c.sent(bytes, at))
                &&& (r is Ok <==> c.sends(bytes, at))
                &&& (r matches Err(e) ==> c.refusal(bytes, e))
            }),
            forall|l: u64| (#[trigger] final(self)@.uses(l)) == old(self)@.uses(l),
    {
        let ghost m = self@;
        let i: usize = self.find_link(link);
        match self.take_slot(i) {
            None => Err(KcpError::connection(ConnectionError::NotConnected)),
            Some(s) => {
                let mut slot = s;
                assert(m.slots[i as int].connection.wf());
                let r = slot.connection.send(data, at);
                proof {
                    lemma_changed(m, i as int, slot@.connection);
                }
                self.put_slot(i, slot);
                assert(self@.slots =~= m.changed(i as int, slot@.connection).slots);
                r
            },
        }
    }

    /// Receive data from the connection with this link.
    pub fn recv(&mut self, link: u64, at: Moment) -> (r: KcpResult<Option<Bytes>>)
        requires
            old(self).wf(),
        ensures
            final(self).wf(),
            !old(self)@.uses(link) ==> final(self)@ == old(self)@ && r is Err && r->Err_0 == (
            KcpError::Connection { kind: ConnectionError::NotConnected }),
            old(self)@.uses(link) ==> ({
                let c = old(self)@.linked(link);
                &&& final(self)@ == old(self)@.relinked(link, c.received(at))
                &&& r is Ok
                &&& (r->Ok_0 is Some <==> c.engine.has_message())
                &&& (r->Ok_0 matches Some(b) ==> buffers::bytes_of(b) == c.engine.first_message())
            }),
            forall|l: u64| (#[trigger] final(self)@.uses(l)) == old(self)@.uses(l),
    {
        let ghost m = self@;
        let i: usize = self.find_link(link);
        match self.take_slot(i) {
            None => Err(KcpError::connection(ConnectionError::NotConnected)),
            Some(s) => {
                let mut slot = s;
                assert(m.slots[i as int].connection.wf());
                let r = slot.connection.recv(at);
                proof {
                    lemma_changed(m, i as int, slot@.connection);
                }
                self.put_slot(i, slot);
                assert(self@.slots =~= m.changed(i as int, slot@.connection).slots);
                r
            },
        }
    }

    /// Close the connection with this link, if there is one. It stays listed until a cleanup.
    pub fn close(&mut self, link: u64, at: Moment) -> (r: KcpResult<()>)
        requires
            old(self).wf(),
        ensures
            final(self).wf(),
            final(self)@ == old(self)@.closed(link, at),
            r is Err <==> old(self)@.uses(link) && old(self)@.linked(link).engine.gives_up(at.wall),
            r matches Err(e) ==> e == (KcpError::Connection { kind: ConnectionError::Lost }),
            forall|l: u64| (#[trigger] final(self)@.uses(l)) == old(self)@.uses(l),
    {
        let ghost m = self@;
        let i: usize = self.find_link(link);
        match self.take_slot(i) {
            None => Ok(()),
            Some(s) => {
                let mut slot = s;
                assert(m.slots[i as int].connection.wf());
                let r = slot.connection.close(at);
                proof {
                    lemma_changed(m, i as int, slot@.connection);
                }
                self.put_slot(i, slot);
                assert(self@.slots =~= m.changed(i as int, slot@.connection).slots);
                r
            },
        }
    }

    /// Hand a packet to the connection of the peer. Without a connection nothing happens.
    pub fn receive(&mut self, peer: u64, data: Bytes, at: Moment) -> (r: Option<KcpResult<()>>)
        requires
            old(self).wf(),
        ensures
            final(self).wf(),
            r is Some <==> old(self)@.reaches(peer),
            r is None ==> final(self)@ == old(self)@,
            r matches Some(result) ==> ({
                let conv = old(self)@.addr_to_conv[peer];
                let c = old(self)@.get(conv);
                let bytes = buffers::bytes_of(data);
                &&& final(self)@ == old(self)@.changed(
                    place(old(self)@.slots, conv) as int,
                    c.fed(bytes, at),
                )
                &&& (result is Ok <==> c.takes(bytes, at))
                &&& (result matches Err(e) ==> ConnectionModel::complaint(bytes, e))
            }),
            forall|l: u64| (#[trigger] final(self)@.uses(l)) == old(self)@.uses(l),
    {
        let ghost m = self@;
        let conv: u32 = match self.addr_to_conv.get(&peer) {
            None => {
                return None;
            },
            Some(conv) => *conv,
        };
        let i: usize = self.find(conv);
        match self.take_slot(i) {
            None => None,
            Some(s) => {
                let mut slot = s;
                assert(m.slots[i as int].connection.wf());
                let r = slot.connection.input(data, at);
                proof {
                    lemma_changed(m, i as int, slot@.connection);
                }
                self.put_slot(i, slot);
                assert(self@.slots =~= m.changed(i as int, slot@.connection).slots);
                Some(r)
            },
        }
    }

    /// Remove a connection from the list: close it, and hand out what it has left to send.
    pub fn remove_connection(&mut self, conv: ConvId, at: Moment) -> (r: (
        KcpResult<()>,
        Option<Outgoing>,
    ))
        requires
            old(self).wf(),
        ensures
            final(self).wf(),
            !old(self)@.has(conv) ==> final(self)@ == old(self)@ && r.0 is Ok && r.1 is None,
            old(self)@.has(conv) ==> ({
                let c = old(self)@.get(conv);
                &&& final(self)@ == old(self)@.removed(conv, at)
                &&& (r.0 is Err <==> c.engine.gives_up(at.wall))
                &&& (r.0 matches Err(e) ==> e == (KcpError::Connection {
                    kind: ConnectionError::Lost,
                }))
                &&& r.1 is Some
                &&& r.1->0@ == (c.peer, c.closed(at).engine.output)
            }),
    {
        let ghost m = self@;
        let i: usize = self.find(conv);
        match self.take_slot(i) {
            None => (Ok(()), None),
            Some(s) => {
                let mut slot = s;
                assert(m.slots[i as int].connection.wf());
                let peer: u64 = slot.connection.peer;
                let r = slot.connection.close(at);
                let packets = slot.connection.take_output();
                proof {
                    lemma_removed(m, conv, at);
                }
                slot.listed = false;
                self.put_slot(i, slot);
                self.addr_to_conv.remove(&peer);
                assert(self@.slots =~= m.removed(conv, at).slots);
                (r, Some(Outgoing { peer, packets }))
            },
        }
    }

    /// The listed connections, in the order in which they were made.
    pub fn connections(&self) -> (r: Vec<ConnectionInfo>)
        ensures
            r@ == Seq::new(
                listed(self@.slots).len(),
                |i: int| listed(self@.slots)[i].info(),
            ),
    {
        let mut r: Vec<ConnectionInfo> = Vec::new();
        let mut i: usize = 0;
        let ghost all = self@.slots;
        while i < self.slots.len()
            invariant
                all == self@.slots,
                i <= all.len(),
                all.len() == self.slots@.len(),
                r@.len() == listed(all.take(i as int)).len(),
                forall|k: int|
                    0 <= k < r@.len() ==> (#[trigger] r@[k]) == listed(
                        all.take(i as int),
                    )[k].info(),
            decreases all.len() - i,
        {
            proof {
                assert(all[i as int] == self.slots@[i as int]@);
                assert(all.take(i + 1).drop_last() =~= all.take(i as int));
                assert(all.take(i + 1).last() == all[i as int]);
            }
            if self.slots[i].listed {
                r.push(self.slots[i].connection.info());
            }
            i = i + 1;
        }
        assert(all.take(i as int) =~= all);
        r
    }

    /// Get connection count: how many are listed.
    pub fn connection_count(&self) -> (r: usize)
        ensures
            r == listed(self@.slots).len(),
    {
        let mut r: usize = 0;
        let mut i: usize = 0;
        let ghost all = self@.slots;
        while i < self.slots.len()
            invariant
                all == self@.slots,
                i <= all.len(),
                all.len() == self.slots@.len(),
                r == listed(all.take(i as int)).len(),
                r <= i,
            decreases all.len() - i,
        {
            proof {
                assert(all[i as int] == self.slots@[i as int]@);
                assert(all.take(i + 1).drop_last() =~= all.take(i as int));
                assert(all.take(i + 1).last() == all[i as int]);
            }
            if self.slots[i].listed {
                r = r + 1;
            }
            i = i + 1;
        }
        assert(all.take(i as int) =~= all);
        r
    }

    /// Update all listed connections. Says for which of them that failed.
    pub fn update_all(&mut self, at: Moment) -> (r: Vec<ConvId>)
        requires
            old(self).wf(),
        ensures
            final(self).wf(),
            final(self)@ == old(self)@.updated(at),
            r@ == failing(old(self)@.slots, at),
    {
        let ghost m = self@;
        let ghost all = m.slots;
        let ghost goal = m.updated(at).slots;
        let mut done: VecDeque<Slot> = VecDeque::new();
        let mut r: Vec<ConvId> = Vec::new();
        let ghost mut k: int = 0;
        proof {
            assert(all.skip(0) =~= all);
            assert(slot_models(done@) =~= goal.take(0));
        }
        while self.slots.len() > 0
            invariant
                m.wf(),
                all == m.slots,
                goal == m.updated(at).slots,
                0 <= k <= all.len(),
                self@ == (ManagerModel { slots: all.skip(k), ..m }),
                slot_models(done@) == goal.take(k),
                r@ == failing(all.take(k), at),
            decreases self.slots@.len(),
        {
            proof {
                lemma_slots_front(self.slots@);
                assert(all.skip(k).skip(1) =~= all.skip(k + 1));
                assert(all.skip(k)[0] == all[k]);
                assert(all.take(k + 1).drop_last() =~= all.take(k));
                assert(all[k].connection.wf());
            }
            match self.slots.pop_front() {
                Some(s) => {
                    let mut slot = s;
                    let conv: u32 = slot.connection.conv;
                    if slot.listed {
                        if slot.connection.update(at).is_err() {
                            r.push(conv);
                        }
                    }
                    let ghost before = done@;
                    done.push_back(slot);
                    proof {
                        assert(slot_models(done@) =~= slot_models(before).push(slot@));
                        assert(goal.take(k + 1) =~= goal.take(k).push(goal[k]));
                        k = k + 1;
                    }
                },
                None => {},
            }
        }
        proof {
            assert(self@.slots.len() == all.len() - k);
            assert(goal.take(k) =~= goal);
            assert(all.take(k) =~= all);
            lemma_updated_wf(m, at);
        }
        self.slots = done;
        r
    }

    /// Take the datagrams of all connections.
    pub fn take_output(&mut self) -> (r: Vec<Outgoing>)
        requires
            old(self).wf(),
        ensures
            final(self).wf(),
            final(self)@ == old(self)@.drained(),
            outgoing_models(r@) == Seq::new(
                old(self)@.slots.len(),
                |i: int|
                    (
                        old(self)@.slots[i].connection.peer,
                        old(self)@.slots[i].connection.engine.output,
                    ),
            ),
    {
        let ghost m = self@;
        let ghost all = m.slots;
        let ghost goal = m.drained().slots;
        let ghost sent = Seq::new(
            all.len(),
            |i: int| (all[i].connection.peer, all[i].connection.engine.output),
        );
        let mut done: VecDeque<Slot> = VecDeque::new();
        let mut r: Vec<Outgoing> = Vec::new();
        let ghost mut k: int = 0;
        proof {
            assert(all.skip(0) =~= all);
            assert(slot_models(done@) =~= goal.take(0));
            assert(outgoing_models(r@) =~= sent.take(0));
        }
        while self.slots.len() > 0
            invariant
                m.wf(),
                all == m.slots,
                goal == m.drained().slots,
                sent == Seq::new(
                    all.len(),
                    |i: int| (all[i].connection.peer, all[i].connection.engine.output),
                ),
                0 <= k <= all.len(),
                self@ == (ManagerModel { slots: all.skip(k), ..m }),
                slot_models(done@) == goal.take(k),
                outgoing_models(r@) == sent.take(k),
            decreases self.slots@.len(),
        {
            proof {
                lemma_slots_front(self.slots@);
                assert(all.skip(k).skip(1) =~= all.skip(k + 1));
                assert(all.skip(k)[0] == all[k]);
                assert(all[k].connection.wf());
            }
            match self.slots.pop_front() {
                Some(s) => {
                    let mut slot = s;
                    let packets = slot.connection.take_output();
                    let out = Outgoing { peer: slot.connection.peer, packets };
                    let ghost before = done@;
                    let ghost told = r@;
                    r.push(out);
                    done.push_back(slot);
                    proof {
                        assert(slot_models(done@) =~= slot_models(before).push(slot@));
                        assert(outgoing_models(r@) =~= outgoing_models(told).push(out@));
                        assert(goal.take(k + 1) =~= goal.take(k).push(goal[k]));
                        assert(sent.take(k + 1) =~= sent.take(k).push(sent[k]));
                        k = k + 1;
                    }
                },
                None => {},
            }
        }
        proof {
            assert(self@.slots.len() == all.len() - k);
            assert(goal.take(k) =~= goal);
            assert(sent.take(k) =~= sent);
            lemma_drained_wf(m);
        }
        self.slots = done;
        r
    }

    /// Close the listed connections that have failed, been closed or been idle for too long, and
    /// remove them from the list. Let go of connections that are not listed, except for those
    /// whose links are still in use. Hands out what they have left to send.
    pub fn cleanup(&mut self, at: Moment, links: &Vec<u64>) -> (r: Vec<Outgoing>)
        requires
            old(self).wf(),
        ensures
            final(self).wf(),
            final(self)@ == old(self)@.cleaned(at, links@),
            outgoing_models(r@) == farewells(
                old(self)@.slots,
                at,
                old(self)@.idle_timeout,
                links@,
            ),
    {
        let ghost m = self@;
        let ghost all = m.slots;
        let now: u64 = at.instant;
        let timeout: u64 = self.idle_timeout;
        let mut kept: VecDeque<Slot> = VecDeque::new();
        let mut r: Vec<Outgoing> = Vec::new();
        let ghost mut k: int = 0;
        proof {
            assert(all.skip(0) =~= all);
            assert(slot_models(kept@) =~= fit(all.take(0), at, timeout, links@));
            assert(outgoing_models(r@) =~= farewells(all.take(0), at, timeout, links@));
            lemma_fit(all, at, timeout, links@);
        }
        while self.slots.len() > 0
            invariant
                m.wf(),
                all == m.slots,
                now == at.instant,
                timeout == m.idle_timeout,
                0 <= k <= all.len(),
                self@ == (ManagerModel {
                    slots: all.skip(k),
                    addr_to_conv: fit_peers(m.addr_to_conv, all.take(k), now, timeout),
                    ..m
                }),
                slot_models(kept@) == fit(all.take(k), at, timeout, links@),
                outgoing_models(r@) == farewells(all.take(k), at, timeout, links@),
            decreases self.slots@.len(),
        {
            proof {
                lemma_slots_front(self.slots@);
                assert(all.skip(k).skip(1) =~= all.skip(k + 1));
                assert(all.skip(k)[0] == all[k]);
                assert(all.take(k + 1).drop_last() =~= all.take(k));
                assert(all.take(k + 1).last() == all[k]);
                assert(all[k].connection.wf());
            }
            match self.slots.pop_front() {
                Some(s) => {
                    let mut slot = s;
                    let expires = slot.listed && slot.connection.is_stale(now, timeout);
                    if expires {
                        let peer: u64 = slot.connection.peer;
                        self.addr_to_conv.remove(&peer);
                        slot.listed = false;
                        let _ = slot.connection.close(at);
                    }
                    let keeps = slot.listed || has_link(links, slot.link);
                    if expires || !keeps {
                        let packets = slot.connection.take_output();
                        let out = Outgoing { peer: slot.connection.peer, packets };
                        let ghost told = r@;
                        r.push(out);
                        assert(outgoing_models(r@) =~= outgoing_models(told).push(out@));
                    }
                    if keeps {
                        let ghost before = kept@;
                        let ghost model = slot@;
                        kept.push_back(slot);
                        assert(slot_models(kept@) =~= slot_models(before).push(model));
                    }
                    proof {
                        k = k + 1;
                    }
                },
                None => {},
            }
        }
        proof {
            assert(self@.slots.len() == all.len() - k);
            assert(all.take(k) =~= all);
        }
        self.slots = kept;
        r
    }
}

/// Updating all listed connections keeps what holds of them, and every link.
pub proof fn lemma_updated_wf(m: ManagerModel, at: Moment)
    requires
        m.wf(),
    ensures
        m.updated(at).wf(),
        forall|l: u64| (#[trigger] m.updated(at).uses(l)) == m.uses(l),
{
    let after = m.updated(at).slots;
    assert forall|k: int| 0 <= k < after.len() implies (#[trigger] after[k]).connection.wf()
        && after[k].connection.conv == m.slots[k].connection.conv && after[k].link
        == m.slots[k].link && after[k].listed == m.slots[k].listed by {
        assert(m.slots[k].connection.wf());
        lemma_connection_wf(m.slots[k].connection, at);
    }
    assert forall|l: u64| (#[trigger] m.updated(at).uses(l)) == m.uses(l) by {
        lemma_same_spots(m.slots, after, l);
    }
}

/// Taking datagrams keeps what holds of connections, and every link.
pub proof fn lemma_drained_wf(m: ManagerModel)
    requires
        m.wf(),
    ensures
        m.drained().wf(),
        forall|l: u64| (#[trigger] m.drained().uses(l)) == m.uses(l),
{
    let after = m.drained().slots;
    assert forall|k: int| 0 <= k < after.len() implies (#[trigger] after[k]).connection.wf()
        && after[k].connection.conv == m.slots[k].connection.conv && after[k].link
        == m.slots[k].link && after[k].listed == m.slots[k].listed by {
        assert(m.slots[k].connection.wf());
    }
    assert forall|l: u64| (#[trigger] m.drained().uses(l)) == m.uses(l) by {
        lemma_same_spots(m.slots, after, l);
    }
}

/// After a cleanup no connection is listed that has failed, been closed or been idle for too
/// long, and none has been made up.
pub proof fn law_cleanup_leaves_fit_connections(
    m: ManagerModel,
    at: Moment,
    links: Seq<u64>,
    i: int,
)
    requires
        m.wf(),
        0 <= i < m.cleaned(at, links).slots.len(),
    ensures
        !m.cleaned(at, links).slots[i].expires(at.instant, m.idle_timeout),
        swept_from(m.cleaned(at, links).slots[i], m.slots, at, m.idle_timeout),
{
    lemma_fit(m.slots, at, m.idle_timeout, links);
    assert(m.cleaned(at, links).slots[i] == fit(m.slots, at, m.idle_timeout, links)[i]);
}

/// A connection that has just been made is found by its conversation, its peer and its link.
pub proof fn law_connection_is_found(
    m: ManagerModel,
    peer: u64,
    conv: ConvId,
    link: u64,
    at: Moment,
)
    requires
        m.wf(),
        m.may_link(link),
    ensures
        ({
            let after = m.connected(peer, conv, link, at);
            &&& after.has(conv)
            &&& after.reaches(peer)
            &&& after.addr_to_conv[peer] == conv
            &&& after.uses(link)
            &&& after.linked(link) == after.get(conv)
            &&& after.get(conv).peer == peer
            &&& after.get(conv).state is Connected
        }),
{
    lemma_connected(m, peer, conv, link, at);
}

/// A link always leads to the same connection: one that is made later leaves every connection
/// alone, also one whose conversation it takes.
pub proof fn law_connecting_redirects_no_link(
    m: ManagerModel,
    peer: u64,
    conv: ConvId,
    link: u64,
    at: Moment,
    other: u64,
)
    requires
        m.wf(),
        m.may_link(link),
        m.uses(other),
    ensures
        m.connected(peer, conv, link, at).uses(other),
        m.connected(peer, conv, link, at).linked(other) == m.linked(other),
{
    lemma_connected(m, peer, conv, link, at);
    assert(m.connected(peer, conv, link, at).uses(other));
}

/// A connection whose link is in use outlasts a cleanup, with its peer, its conversation and its
/// statistics.
pub proof fn law_cleanup_keeps_links_in_use(
    m: ManagerModel,
    at: Moment,
    links: Seq<u64>,
    link: u64,
)
    requires
        m.wf(),
        m.uses(link),
        links.contains(link),
    ensures
        m.cleaned(at, links).uses(link),
        m.cleaned(at, links).linked(link).info() == m.linked(link).info(),
        m.cleaned(at, links).linked(link).stats == m.linked(link).stats,
        m.cleaned(at, links).linked(link).last_activity == m.linked(link).last_activity,
{
    lemma_cleaned(m, at, links, link);
}

/// A connection whose update fails for want of acknowledgements is removed by the next cleanup.
pub proof fn law_failed_connection_is_removed(c: ConnectionModel, at: Moment, later: Moment, timeout: u64)
    requires
        !c.update_gives_up(at),
        c.engine.updated(at.wall).dead(),
    ensures
        c.updated(at).stale(later.instant, timeout),
{
}

} // verus!
