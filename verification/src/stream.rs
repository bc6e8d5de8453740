//! The decisions of a stream: its limits, the engine that it starts with, and what reading and
//! writing do.
use crate::actor;
use crate::actor::ActorSettings;
use crate::buffers;
use crate::config::{KcpConfig, KcpCoreConfig};
use crate::engine::{EngineModel, KcpEngine};
use crate::error::{ConnectionError, IoErrorKind, KcpError, KcpResult};
use crate::protocol::constants;
use crate::protocol::{random_conv_id, ConvId, Timestamp};
use crate::text;
use crate::text::decimal;
use bytes::{Bytes, BytesMut};
use vstd::prelude::*;
use vstd::string::StringExecFns;

verus! {

/// Capacity of the bounded outbound-data channel between a stream and its task.
pub const SEND_CHANNEL_CAPACITY: usize = 16;

/// The least high-water mark.
pub const LEAST_HIGH_WATER: usize = 64;

/// Limits that a stream keeps.
#[derive(Debug, Clone, Copy, PartialEq, Eq, Structural)]
pub struct StreamLimits {
    /// Max segment size. A write is cut to this, so that it makes one segment.
    pub mss: usize,
    /// Largest single message
    pub max_msg: usize,
}

/// The segment size that a configuration leaves.
pub open spec fn segment_size(config: KcpConfig) -> int {
    if config.mtu <= constants::IKCP_OVERHEAD {
        1
    } else {
        config.mtu - constants::IKCP_OVERHEAD
    }
}

/// How many fragments of a message a peer with the same configuration can put together.
pub open spec fn fragment_limit(config: KcpConfig) -> int {
    if config.rcv_wnd < constants::IKCP_WND_RCV {
        config.rcv_wnd as int
    } else {
        constants::IKCP_WND_RCV as int
    }
}

/// The limits of a stream with this configuration.
pub fn stream_limits(config: &KcpConfig) -> (r: StreamLimits)
    requires
        config.valid(),
    ensures
        r.mss == segment_size(*config),
        r.max_msg == segment_size(*config) * fragment_limit(*config),
{
    let mss: usize = (config.mtu - constants::IKCP_OVERHEAD) as usize;
    let fragments: usize = if config.rcv_wnd < constants::IKCP_WND_RCV {
        config.rcv_wnd as usize
    } else {
        constants::IKCP_WND_RCV as usize
    };
    assert(mss * fragments <= 65535 * 128) by (nonlinear_arith)
        requires
            mss <= 65535,
            fragments <= 128,
    ;
    StreamLimits { mss, max_msg: mss * fragments }
}

/// At how many waiting segments a stream with this configuration takes no more data: four send
/// windows, and at least the least.
pub open spec fn high_water(config: KcpConfig) -> int {
    let four = 4 * config.snd_wnd as int;
    if four < LEAST_HIGH_WATER {
        LEAST_HIGH_WATER as int
    } else if four > usize::MAX {
        usize::MAX as int
    } else {
        four
    }
}

/// High-water mark (in queued segments) at which no more writes are accepted.
pub fn send_high_water(config: &KcpConfig) -> (r: usize)
    ensures
        r == high_water(*config),
{
    let wnd: usize = config.snd_wnd as usize;
    let four: usize = if wnd > usize::MAX / 4 {
        usize::MAX
    } else {
        wnd * 4
    };
    if four < LEAST_HIGH_WATER {
        LEAST_HIGH_WATER
    } else {
        four
    }
}

/// The settings of the task that drives a stream with this configuration.
pub fn actor_settings(config: &KcpConfig) -> (r: ActorSettings)
    ensures
        r == (ActorSettings {
            update_interval_ms: config.nodelay.interval as u64,
            keep_alive_ms: config.keep_alive,
            simulate_loss: config.simulate_packet_loss,
            send_high_water: high_water(*config) as usize,
        }),
{
    ActorSettings {
        update_interval_ms: config.nodelay.interval as u64,
        keep_alive_ms: config.keep_alive,
        simulate_loss: config.simulate_packet_loss,
        send_high_water: send_high_water(config),
    }
}

/// The conversation that a server uses with a client: the client's own, or, where the client
/// leaves it open with zero, the one drawn.
pub fn assigned_conv(client_conv: ConvId, drawn: ConvId) -> (r: ConvId)
    ensures
        r == (if client_conv == 0 {
            drawn
        } else {
            client_conv
        }),
{
    if client_conv == 0 {
        drawn
    } else {
        client_conv
    }
}

/// The conversation that a server uses with a client, drawing one where the client leaves it
/// open.
pub fn server_conv(client_conv: ConvId) -> (r: ConvId)
    ensures
        r != 0,
        client_conv != 0 ==> r == client_conv,
{
    if client_conv != 0 {
        client_conv
    } else {
        assigned_conv(client_conv, random_conv_id())
    }
}

/// The conversation that a new stream starts with: a client draws one, a server waits for that
/// of the first packet.
pub fn initial_conv(is_client: bool) -> (r: ConvId)
    ensures
        is_client ==> r != 0,
        !is_client ==> r == 0,
{
    if is_client {
        random_conv_id()
    } else {
        0
    }
}

/// The engine of a client stream.
pub fn client_engine(conv: ConvId, config: &KcpConfig, now: Timestamp) -> (r: KcpResult<KcpEngine>)
    ensures
        r is Ok <==> config.valid(),
        r matches Ok(e) ==> e.wf() && e@ == EngineModel::fresh(conv, config.protocol_part(), now),
        r matches Err(e) ==> e.is_config(config.complaint()),
{
    match config.validate() {
        Err(e) => Err(e),
        Ok(()) => {
            let engine = KcpEngine::new_at(conv, KcpCoreConfig::from(*config), now);
            Ok(engine)
        },
    }
}

/// The engine of a server stream once it has taken in the first packet.
pub open spec fn opened(
    client_conv: ConvId,
    server_conv: ConvId,
    config: KcpConfig,
    packet: Seq<u8>,
    now: Timestamp,
) -> EngineModel {
    EngineModel {
        conv: server_conv,
        ..EngineModel::fresh(client_conv, config.protocol_part(), now).fed(packet, now)
    }
}

/// The engine of a server stream: it takes in the first packet under the conversation of the
/// client, switches to that of the server, and answers.
pub fn server_engine(
    client_conv: ConvId,
    server_conv: ConvId,
    config: &KcpConfig,
    packet: Bytes,
    now: Timestamp,
) -> (r: KcpResult<KcpEngine>)
    ensures
        ({
            let data = buffers::bytes_of(packet);
            let fresh = EngineModel::fresh(client_conv, config.protocol_part(), now);
            let segs = crate::engine::input::parse_packet(data);
            let foreign = crate::engine::input::digest(fresh, segs, None, now).foreign;
            let o = opened(client_conv, server_conv, *config, data, now);
            let u = o.updated(now);
            let lost = (o.update_due(now) && (EngineModel { last_update: now, ..o }).gives_up(now))
                || u.gives_up(now);
            if !config.valid() {
                r is Err && r->Err_0.is_config(config.complaint())
            } else if data.len() < 24 {
                r is Err && r->Err_0.is_protocol("Packet too small"@)
            } else if foreign {
                r is Err && r->Err_0.is_protocol("Invalid conversation ID"@)
            } else if lost {
                r is Err && r->Err_0 == (KcpError::Connection { kind: ConnectionError::Lost })
            } else {
                r is Ok && r->Ok_0.wf() && r->Ok_0@ == u.flushed(now)
            }
        }),
{
    match config.validate() {
        Err(e) => {
            return Err(e);
        },
        Ok(()) => {},
    }
    let mut engine = KcpEngine::new_at(client_conv, KcpCoreConfig::from(*config), now);
    match engine.input_at(packet, now) {
        Err(e) => {
            return Err(KcpError::from(e));
        },
        Ok(()) => {},
    }
    proof {
        lemma_fed_keeps_conv(
            EngineModel::fresh(client_conv, config.protocol_part(), now),
            buffers::bytes_of(packet),
            now,
        );
    }
    if client_conv != server_conv {
        engine.set_conv(server_conv);
    }
    assert(engine@ =~= opened(client_conv, server_conv, *config, buffers::bytes_of(packet), now));
    match engine.update_at(now) {
        Err(e) => {
            return Err(KcpError::from(e));
        },
        Ok(()) => {},
    }
    match engine.flush_at(now) {
        Err(e) => {
            return Err(KcpError::from(e));
        },
        Ok(()) => {},
    }
    Ok(engine)
}

/// A packet does not change the conversation.
proof fn lemma_fed_keeps_conv(m: EngineModel, packet: Seq<u8>, now: u32)
    ensures
        m.fed(packet, now).conv == m.conv,
{
    lemma_digest_keeps_conv(m, crate::engine::input::parse_packet(packet), None, now);
}

/// Segments do not change the conversation.
proof fn lemma_digest_keeps_conv(
    m: EngineModel,
    segs: Seq<crate::protocol::SegmentModel>,
    newest: Option<u32>,
    now: u32,
)
    ensures
        crate::engine::input::digest(m, segs, newest, now).engine.conv == m.conv,
    decreases segs.len(),
{
    if segs.len() > 0 && segs[0].header.conv == m.conv {
        lemma_digest_keeps_conv(
            m.absorbed(segs[0], now),
            segs.skip(1),
            crate::engine::input::newest_ack(newest, segs[0].header),
            now,
        );
    }
}

/// What a message that is too long is refused with.
pub open spec fn too_long_text(len: nat, max: nat) -> Seq<char> {
    "message of "@ + text::decimal_of(len) + " bytes exceeds max "@ + text::decimal_of(max)
        + " for one send; use AsyncWrite for streaming"@
}

/// What a stream keeps about reading and writing.
pub struct StreamState {
    limits: StreamLimits,
    read_buf: BytesMut,
    closing: bool,
    closed: bool,
}

/// What such a state stands for.
#[verifier::ext_equal]
pub struct StreamModel {
    /// The limits
    pub limits: StreamLimits,
    /// Data that has been received and not been read
    pub unread: Seq<u8>,
    /// Its task has been asked to close
    pub closing: bool,
    /// The stream is closed on this side
    pub closed: bool,
}

/// What a shutdown does when it is polled.
#[derive(Debug, Clone, Copy, PartialEq, Eq, Structural)]
pub enum ShutdownStep {
    /// It asks the task to close
    Ask,
    /// It waits for the task to end
    Wait,
    /// It is over
    Done,
}

/// What a read does.
#[derive(Debug)]
pub enum ReadStep {
    /// It gives these bytes
    Data(Bytes),
    /// It is at the end
    End,
    /// It has to wait for a message
    Wait,
}

impl View for StreamState {
    type V = StreamModel;

    closed spec fn view(&self) -> StreamModel {
        StreamModel {
            limits: self.limits,
            unread: buffers::buf_of(self.read_buf),
            closing: self.closing,
            closed: self.closed,
        }
    }
}

impl StreamModel {
    /// How many bytes a read of at most `room` gives.
    pub open spec fn readable(self, room: int) -> int {
        if room < self.unread.len() {
            room
        } else {
            self.unread.len() as int
        }
    }

    /// A read of at most `room` bytes has been served from what was received before.
    pub open spec fn read(self, room: int) -> Self {
        StreamModel { unread: self.unread.skip(self.readable(room)), ..self }
    }

    /// What a poll of a shutdown does, given whether the task has ended.
    pub open spec fn shutdown_step(self, task_over: bool) -> ShutdownStep {
        if self.closed {
            ShutdownStep::Done
        } else if !self.closing {
            ShutdownStep::Ask
        } else if task_over {
            ShutdownStep::Done
        } else {
            ShutdownStep::Wait
        }
    }

    /// A shutdown has been polled.
    pub open spec fn shutdown(self, task_over: bool) -> Self {
        match self.shutdown_step(task_over) {
            ShutdownStep::Ask => StreamModel { closing: true, ..self },
            ShutdownStep::Wait => self,
            ShutdownStep::Done => StreamModel { closed: true, ..self },
        }
    }

    /// A shutdown has been polled several times; each poll found the task ended or not.
    pub open spec fn shutdown_polls(self, overs: Seq<bool>) -> Self
        decreases overs.len(),
    {
        if overs.len() == 0 {
            self
        } else {
            self.shutdown_polls(overs.drop_last()).shutdown(overs.last())
        }
    }
}

impl StreamState {
    /// A stream that is open and has received nothing.
    pub fn new(limits: StreamLimits) -> (r: Self)
        ensures
            r@ == (StreamModel { limits, unread: Seq::empty(), closing: false, closed: false }),
    {
        StreamState {
            limits,
            read_buf: BytesMut::with_capacity(2048),
            closing: false,
            closed: false,
        }
    }

    /// Whether the stream is closed on this side.
    pub fn is_closed(&self) -> (r: bool)
        ensures
            r == self@.closed,
    {
        self.closed
    }

    /// Close the stream on this side. Says whether it was open.
    pub fn close(&mut self) -> (r: bool)
        ensures
            r == !old(self)@.closed,
            final(self)@ == (StreamModel { closed: true, ..old(self)@ }),
    {
        let r = !self.closed;
        self.closed = true;
        r
    }

    /// Poll a shutdown, given whether the task has ended: the task is asked to close once, and
    /// the stream is closed when the task has ended after that.
    pub fn shutdown(&mut self, task_over: bool) -> (r: ShutdownStep)
        ensures
            r == old(self)@.shutdown_step(task_over),
            final(self)@ == old(self)@.shutdown(task_over),
    {
        if self.closed {
            return ShutdownStep::Done;
        }
        if !self.closing {
            self.closing = true;
            return ShutdownStep::Ask;
        }
        if task_over {
            self.closed = true;
            return ShutdownStep::Done;
        }
        ShutdownStep::Wait
    }

    /// Whether a message may be sent.
    pub fn check_send(&self, len: usize) -> (r: KcpResult<()>)
        ensures
            self@.closed ==> r is Err && r->Err_0 == (KcpError::Connection {
                kind: ConnectionError::Closed,
            }),
            !self@.closed && len > self@.limits.max_msg ==> r is Err && r->Err_0.is_buffer(
                too_long_text(len as nat, self@.limits.max_msg as nat),
            ),
            !self@.closed && len <= self@.limits.max_msg ==> r is Ok,
    {
        if self.closed {
            return Err(KcpError::connection(ConnectionError::Closed));
        }
        if len > self.limits.max_msg {
            let mut message = "message of ".to_owned();
            message.append(decimal(len as u64).as_str());
            message.append(" bytes exceeds max ");
            message.append(decimal(self.limits.max_msg as u64).as_str());
            message.append(" for one send; use AsyncWrite for streaming");
            return Err(KcpError::buffer(message.as_str()));
        }
        Ok(())
    }

    /// How much of `len` bytes one write takes: at most one segment.
    pub fn write_len(&self, len: usize) -> (r: KcpResult<usize>)
        ensures
            self@.closed ==> r is Err && (r->Err_0 matches KcpError::Io { kind, message } && kind
                == IoErrorKind::BrokenPipe && message@ == "Stream is closed"@),
            !self@.closed ==> r is Ok && r->Ok_0 == (if len < self@.limits.mss {
                len
            } else {
                self@.limits.mss
            }),
    {
        if self.closed {
            return Err(KcpError::io(IoErrorKind::BrokenPipe, "Stream is closed"));
        }
        Ok(
            if len < self.limits.mss {
                len
            } else {
                self.limits.mss
            },
        )
    }

    /// Read at most `room` bytes. What was received before a close can still be read.
    pub fn read(&mut self, room: usize) -> (r: ReadStep)
        ensures
            old(self)@.unread.len() > 0 ==> (r matches ReadStep::Data(b) && buffers::bytes_of(b)
                == old(self)@.unread.take(old(self)@.readable(room as int)) && final(self)@ == old(
                self,
            )@.read(room as int)),
            old(self)@.unread.len() == 0 ==> final(self)@ == old(self)@ && (if old(self)@.closed {
                r is End
            } else {
                r is Wait
            }),
    {
        let held: usize = self.read_buf.len();
        if held > 0 {
            let n: usize = if room < held {
                room
            } else {
                held
            };
            return ReadStep::Data(self.read_buf.split_to(n).freeze());
        }
        if self.closed {
            ReadStep::End
        } else {
            ReadStep::Wait
        }
    }

    /// Whether a message of `len` bytes fits in memory beside what is unread.
    pub fn has_room_for(&self, len: usize) -> (r: bool)
        ensures
            r == (self@.unread.len() + len <= buffers::buffer_limit()),
    {
        let limit: usize = usize::MAX / 4;
        let held: usize = self.read_buf.len();
        held <= limit && len <= limit - held
    }

    /// A message has been received: keep it, and read at most `room` bytes of it.
    pub fn read_message(&mut self, data: Bytes, room: usize) -> (r: Bytes)
        requires
            old(self)@.unread.len() + buffers::bytes_of(data).len() <= buffers::buffer_limit(),
        ensures
            ({
                let full = StreamModel {
                    unread: old(self)@.unread + buffers::bytes_of(data),
                    ..old(self)@
                };
                &&& buffers::bytes_of(r) == full.unread.take(full.readable(room as int))
                &&& final(self)@ == full.read(room as int)
            }),
    {
        buffers::extend(&mut self.read_buf, &data);
        let held: usize = self.read_buf.len();
        let n: usize = if room < held {
            room
        } else {
            held
        };
        self.read_buf.split_to(n).freeze()
    }
}

/// A message that a stream accepts, its engine accepts, whatever its state: it is never refused
/// further down.
pub proof fn law_accepted_messages_fit(config: KcpConfig, m: EngineModel, len: int)
    requires
        config.valid(),
        m.wf(),
        m.config == config.protocol_part(),
        0 <= len <= segment_size(config) * fragment_limit(config),
    ensures
        m.accepts(len),
{
    let mss = segment_size(config);
    let k = fragment_limit(config);
    assert(m.mss() == mss);
    if len > 0 {
        assert((len + mss - 1) / mss <= k) by (nonlinear_arith)
            requires
                0 < len <= mss * k,
                mss > 0,
                k >= 0,
        ;
    }
}

/// A write makes at most one segment, so an engine accepts it whatever its state and its windows
/// are.
pub proof fn law_writes_are_single_segments(config: KcpConfig, m: EngineModel, len: int)
    requires
        config.valid(),
        m.wf(),
        m.config == config.protocol_part(),
        0 < len <= segment_size(config),
    ensures
        m.accepts(len),
        crate::engine::sending::chunk_count(len, m.mss()) == 1,
{
    let mss = segment_size(config);
    assert((len + mss - 1) / mss == 1) by (nonlinear_arith)
        requires
            0 < len <= mss,
    ;
}

/// Reading in pieces gives the bytes in order, and none twice.
pub proof fn law_reads_are_in_order(m: StreamModel, first: int, second: int)
    requires
        0 <= first,
        0 <= second,
    ensures
        m.unread.take(m.readable(first)) + m.read(first).unread.take(
            m.read(first).readable(second),
        ) == m.unread.take(m.readable(first + second)),
{
    assert(m.unread.take(m.readable(first)) + m.read(first).unread.take(
        m.read(first).readable(second),
    ) =~= m.unread.take(m.readable(first + second)));
}

/// A shutdown of an open stream is over only when its task has ended after being asked to close:
/// some poll after the first must have found it so. Then the stream is closed, and not before.
pub proof fn law_shutdown_waits_for_task(m: StreamModel, overs: Seq<bool>)
    requires
        !m.closed,
        !m.closing,
    ensures
        m.shutdown_polls(overs).closing <==> overs.len() > 0,
        m.shutdown_polls(overs).closed <==> exists|i: int| 1 <= i < overs.len() && #[trigger] overs[i],
        m.shutdown_polls(overs).unread == m.unread,
    decreases overs.len(),
{
    if overs.len() > 0 {
        let front = overs.drop_last();
        law_shutdown_waits_for_task(m, front);
        let n = front.len() as int;
        assert forall|i: int| 0 <= i < n implies #[trigger] front[i] == overs[i] by {}
        if exists|i: int| 1 <= i < front.len() && #[trigger] front[i] {
            let i = choose|i: int| 1 <= i < front.len() && #[trigger] front[i];
            assert(overs[i]);
        }
        if exists|i: int| 1 <= i < overs.len() && #[trigger] overs[i] {
            let i = choose|i: int| 1 <= i < overs.len() && #[trigger] overs[i];
            if i < n {
                assert(front[i]);
            }
        }
    }
}

/// A whole shutdown, of a stream and its task: the stream is closed only after the task has
/// ended, and the task has sent everything and got it acknowledged by then, or has waited for ten
/// seconds, or has given up the link or the peer.
pub proof fn law_shutdown_waits_for_acknowledgements(
    m: StreamModel,
    overs: Seq<bool>,
    task: actor::ActorModel,
    left: Seq<Seq<u8>>,
    at: actor::Moment,
    begun: actor::Moment,
    events: Seq<actor::TaskEvent>,
    moments: Seq<actor::Moment>,
)
    requires
        !m.closed,
        !m.closing,
        forall|i: int|
            1 <= i < overs.len() && (#[trigger] overs[i]) ==> actor::has_ended(
                task.begun_closing(left, at).drained(),
                begun,
                events,
                moments,
            ),
    ensures
        m.shutdown_polls(overs).closed ==> actor::had_reason(
            task.begun_closing(left, at).drained(),
            actor::linger_end(at.instant),
            begun,
            events,
            moments,
        ),
{
    law_shutdown_waits_for_task(m, overs);
    if m.shutdown_polls(overs).closed {
        let i = choose|i: int| 1 <= i < overs.len() && #[trigger] overs[i];
        assert(overs[i]);
        actor::law_close_ends_with_reason(task, left, at, begun, events, moments);
    }
}

/// A stream that is closed stays closed, and a further shutdown is over at once.
pub proof fn law_closed_stream_stays_closed(m: StreamModel, over: bool, room: int)
    requires
        m.closed,
    ensures
        m.shutdown_step(over) is Done,
        m.shutdown(over) == m,
        m.read(room).closed,
{
}

/// The limits of a stream: a segment has the transmission unit less 24 bytes, and a message has at
/// most 128 segments, and no more than the receive window takes.
pub proof fn law_limits(config: KcpConfig)
    requires
        config.mtu > 24,
    ensures
        segment_size(config) == config.mtu - 24,
        fragment_limit(config) <= 128,
        fragment_limit(config) <= config.rcv_wnd,
        fragment_limit(config) == 128 || fragment_limit(config) == config.rcv_wnd,
{
}

/// Writes are accepted until four send windows of segments wait, and at least until 64 do.
pub proof fn law_high_water(config: KcpConfig)
    ensures
        high_water(config) >= 64,
        high_water(config) <= usize::MAX,
        high_water(config) == 64 || high_water(config) == usize::MAX || high_water(config) == 4
            * config.snd_wnd,
        4 * config.snd_wnd <= usize::MAX ==> high_water(config) >= 4 * config.snd_wnd,
        4 * config.snd_wnd >= 64 ==> high_water(config) <= 4 * config.snd_wnd,
        4 * config.snd_wnd > usize::MAX ==> high_water(config) == usize::MAX,
{
}

/// A read gives as much as there is, and no more than there is room for. What it gives comes off
/// the front.
pub proof fn law_reads_take_what_fits(m: StreamModel, room: int)
    requires
        room >= 0,
    ensures
        m.readable(room) <= room,
        m.readable(room) <= m.unread.len(),
        m.readable(room) == room || m.readable(room) == m.unread.len(),
        m.read(room).unread == m.unread.skip(m.readable(room)),
        m.read(room).closed == m.closed,
        m.read(room).closing == m.closing,
        m.read(room).limits == m.limits,
{
}

/// The first poll of a shutdown asks the task to close, the next ones wait for it to end, and the
/// first that finds it ended closes the stream.
pub proof fn law_shutdown_steps(m: StreamModel, over: bool)
    requires
        !m.closed,
    ensures
        !m.closing ==> m.shutdown_step(over) is Ask && m.shutdown(over) == (StreamModel {
            closing: true,
            ..m
        }),
        m.closing && over ==> m.shutdown_step(over) is Done && m.shutdown(over) == (StreamModel {
            closed: true,
            ..m
        }),
        m.closing && !over ==> m.shutdown_step(over) is Wait && m.shutdown(over) == m,
{
}

/// The engine of a server takes in the first packet as one of the client's conversation, and goes
/// on in its own.
pub proof fn law_server_opens(
    client_conv: ConvId,
    server_conv: ConvId,
    config: KcpConfig,
    packet: Seq<u8>,
    now: Timestamp,
)
    ensures
        ({
            let fed = EngineModel::fresh(client_conv, config.protocol_part(), now).fed(packet, now);
            let o = opened(client_conv, server_conv, config, packet, now);
            &&& o.conv == server_conv
            &&& o.rcv_queue == fed.rcv_queue
            &&& o.rcv_buf == fed.rcv_buf
            &&& o.rcv_nxt == fed.rcv_nxt
            &&& o.ack_list == fed.ack_list
            &&& o.config == fed.config
            &&& o.wnd == fed.wnd
            &&& o.last_recv == fed.last_recv
        }),
{
}

/// The protocol's part of the settings is the settings' own.
pub proof fn law_protocol_part(config: KcpConfig)
    ensures
        config.protocol_part().mtu == config.mtu,
        config.protocol_part().snd_wnd == config.snd_wnd,
        config.protocol_part().rcv_wnd == config.rcv_wnd,
        config.protocol_part().nodelay == config.nodelay,
        config.protocol_part().max_retries == config.max_retries,
        config.protocol_part().stream_mode == config.stream_mode,
{
}

} // verus!
