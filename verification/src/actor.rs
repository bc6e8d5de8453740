//! The decisions of the task that owns an engine.
//!
//! The task waits for the first of several events: its timer, a command, a packet, data to
//! send. It tells the [`EngineActor`] which came, and the actor says what is to be done: which
//! datagrams are to be sent, and whether the task is over. Instants are milliseconds of a
//! clock that never goes back.
use crate::buffers;
use crate::clock::random_bits;
use crate::engine;
use crate::engine::{EngineModel, KcpEngine};
use crate::error::{KcpCoreResult, KcpError, KcpResult};
use crate::protocol::{KcpStats, Timestamp};
use crate::sequence;
use bytes::Bytes;
use vstd::prelude::*;

pub mod timing;

verus! {

/// How long a closing task waits for outstanding acknowledgements, in milliseconds.
pub const LINGER_MS: u64 = 10_000;

/// Settings of the task.
#[derive(Debug, Clone, Copy, PartialEq, Eq, Structural)]
pub struct ActorSettings {
    /// Update interval in milliseconds
    pub update_interval_ms: u64,
    /// Keep-alive interval in milliseconds
    pub keep_alive_ms: Option<u64>,
    /// The loss threshold, where loss is simulated
    pub simulate_loss: Option<u32>,
    /// At how many waiting segments no more data is taken
    pub send_high_water: usize,
}

/// A reading of both clocks: the wall clock that timestamps are made of, and the instant.
#[derive(Debug, Clone, Copy, PartialEq, Eq, Structural)]
pub struct Moment {
    /// Timestamp of the wall clock
    pub wall: Timestamp,
    /// The instant, in milliseconds
    pub instant: u64,
}

/// What the task is to do.
#[derive(Debug)]
pub enum Step {
    /// End without sending anything more
    Stop,
    /// Send these datagrams and go on
    Send(Vec<Bytes>),
}

/// The engine and what the task remembers.
pub struct EngineActor {
    engine: KcpEngine,
    settings: ActorSettings,
    last_probe: u64,
    send_closed: bool,
    closing: bool,
    close_deadline: Option<u64>,
}

/// What an actor stands for.
#[verifier::ext_equal]
pub struct ActorModel {
    /// The engine
    pub engine: EngineModel,
    /// The settings
    pub settings: ActorSettings,
    /// When the last keep-alive probe was
    pub last_probe: u64,
    /// No more data comes from the application
    pub send_closed: bool,
    /// The task is only waiting for outstanding acknowledgements
    pub closing: bool,
    /// When it stops waiting for them
    pub close_deadline: Option<u64>,
}

impl View for EngineActor {
    type V = ActorModel;

    closed spec fn view(&self) -> ActorModel {
        ActorModel {
            engine: self.engine@,
            settings: self.settings,
            last_probe: self.last_probe,
            send_closed: self.send_closed,
            closing: self.closing,
            close_deadline: self.close_deadline,
        }
    }
}

impl Step {
    /// The task goes on after sending these datagrams.
    pub open spec fn sends(self, packets: Seq<Seq<u8>>) -> bool {
        self matches Step::Send(p) && engine::contents(p@) == packets
    }
}

/// Whether a datagram is sent, given random bits: it is dropped when the top 24 bits lie below
/// the loss threshold.
pub open spec fn kept(threshold: Option<u32>, bits: u64) -> bool {
    match threshold {
        None => true,
        Some(t) => bits as nat / 0x100_0000_0000 >= t,
    }
}

/// The datagrams that are sent, given random bits for each.
pub open spec fn thinned(packets: Seq<Seq<u8>>, threshold: Option<u32>, draws: Seq<u64>) -> Seq<
    Seq<u8>,
>
    decreases packets.len(),
{
    if packets.len() == 0 {
        Seq::empty()
    } else if kept(threshold, draws[packets.len() - 1]) {
        thinned(packets.drop_last(), threshold, draws).push(packets.last())
    } else {
        thinned(packets.drop_last(), threshold, draws)
    }
}

/// Decide whether a datagram is sent.
pub fn survives(threshold: Option<u32>, bits: u64) -> (r: bool)
    ensures
        r == kept(threshold, bits),
{
    match threshold {
        None => true,
        Some(t) => {
            assert(bits >> 40 == bits / 0x100_0000_0000) by (bit_vector);
            bits >> 40 >= t as u64
        },
    }
}

/// Drop datagrams at random, as the loss threshold says.
pub fn thin_out(packets: Vec<Bytes>, threshold: Option<u32>) -> (r: Vec<Bytes>)
    ensures
        exists|draws: Seq<u64>|
            draws.len() == packets@.len() && engine::contents(r@) == #[trigger] thinned(
                engine::contents(packets@),
                threshold,
                draws,
            ),
        threshold is None ==> engine::contents(r@) == engine::contents(packets@),
{
    let ghost all = engine::contents(packets@);
    let mut left: Vec<Bytes> = Vec::new();
    let mut i: usize = 0;
    let ghost mut draws: Seq<u64> = Seq::empty();
    assert(engine::contents(left@) =~= thinned(all.take(0), threshold, draws));
    assert(all.take(0) =~= engine::contents(left@));
    while i < packets.len()
        invariant
            i <= packets@.len(),
            all == engine::contents(packets@),
            draws.len() == i,
            engine::contents(left@) == thinned(all.take(i as int), threshold, draws),
            threshold is None ==> engine::contents(left@) == all.take(i as int),
        decreases packets@.len() - i,
    {
        let bits: u64 = match threshold {
            None => 0,
            Some(_) => random_bits(),
        };
        let ghost before = left@;
        proof {
            let next = draws.push(bits);
            assert(all.take(i + 1).drop_last() =~= all.take(i as int));
            assert(all.take(i + 1) =~= all.take(i as int).push(all[i as int]));
            lemma_thinned_prefix(all.take(i as int), threshold, draws, next);
            draws = next;
        }
        if survives(threshold, bits) {
            left.push(buffers::share(&packets[i]));
            assert(engine::contents(left@) =~= engine::contents(before).push(all[i as int]));
        }
        i = i + 1;
    }
    proof {
        assert(all.take(i as int) =~= all);
    }
    left
}

/// Only the draws for the datagrams themselves matter.
proof fn lemma_thinned_prefix(
    packets: Seq<Seq<u8>>,
    threshold: Option<u32>,
    a: Seq<u64>,
    b: Seq<u64>,
)
    requires
        packets.len() <= a.len() <= b.len(),
        forall|i: int| 0 <= i < packets.len() ==> a[i] == #[trigger] b[i],
    ensures
        thinned(packets, threshold, a) == thinned(packets, threshold, b),
    decreases packets.len(),
{
    if packets.len() > 0 {
        lemma_thinned_prefix(packets.drop_last(), threshold, a, b);
        assert(a[packets.len() - 1] == b[packets.len() - 1]);
    }
}

impl ActorModel {
    /// The longest that the task sleeps, so that keep-alive still happens.
    pub open spec fn idle_cap(self) -> u64 {
        let ka = match self.settings.keep_alive_ms {
            Some(ka) => ka,
            None => 1000,
        };
        let floor = if self.settings.update_interval_ms < 1 {
            1
        } else {
            self.settings.update_interval_ms
        };
        if ka < floor {
            floor
        } else {
            ka
        }
    }

    /// How long the task sleeps: until the engine has something to do, but at least a
    /// millisecond and no longer than the cap.
    pub open spec fn wait(self, now: u32) -> u64 {
        let d = self.engine.next_deadline(now) as u64;
        if d < 1 {
            1
        } else if d > self.idle_cap() {
            self.idle_cap()
        } else {
            d
        }
    }

    /// The engine after its datagrams have been taken.
    pub open spec fn drained(self) -> Self {
        ActorModel { engine: EngineModel { output: Seq::empty(), ..self.engine }, ..self }
    }

    /// The engine after a flush.
    pub open spec fn flushed(self, now: u32) -> Self {
        ActorModel { engine: self.engine.flushed(now), ..self }
    }

    /// How long the peer has been silent.
    pub open spec fn silence(self, at: Moment) -> int {
        sequence::distance(self.engine.last_recv, at.wall)
    }

    /// The peer has been silent for three keep-alive intervals.
    pub open spec fn peer_gone(self, at: Moment) -> bool {
        match self.settings.keep_alive_ms {
            None => false,
            Some(ka) => {
                let limit = if 3 * ka <= u64::MAX {
                    3 * ka
                } else {
                    u64::MAX as int
                };
                self.silence(at) >= limit
            },
        }
    }

    /// How long ago the last keep-alive probe was.
    pub open spec fn since_probe(self, at: Moment) -> int {
        if at.instant < self.last_probe {
            0
        } else {
            at.instant - self.last_probe
        }
    }

    /// The peer has been silent for a keep-alive interval, and has not been probed for as long.
    pub open spec fn probe_due(self, at: Moment) -> bool {
        match self.settings.keep_alive_ms {
            None => false,
            Some(ka) => self.silence(at) >= ka && self.since_probe(at) >= ka,
        }
    }

    /// The timer has run out.
    pub open spec fn on_timer(self, at: Moment) -> Self {
        let f = self.flushed(at.wall);
        if f.probe_due(at) {
            ActorModel { engine: f.engine.nudged(at.wall), last_probe: at.instant, ..f }
        } else {
            f
        }
    }

    /// The engine has been handed data, which it may refuse.
    pub open spec fn given(self, data: Seq<u8>) -> Self {
        if self.engine.accepts(data.len() as int) {
            ActorModel { engine: self.engine.queued(data), ..self }
        } else {
            self
        }
    }

    /// The engine has been handed several pieces of data.
    pub open spec fn given_all(self, data: Seq<Seq<u8>>) -> Self
        decreases data.len(),
    {
        if data.len() == 0 {
            self
        } else {
            self.given_all(data.drop_last()).given(data.last())
        }
    }

    /// The task has begun to close: it takes in what is left to send, and nothing after that.
    pub open spec fn begun_closing(self, left: Seq<Seq<u8>>, at: Moment) -> Self {
        ActorModel {
            send_closed: true,
            closing: true,
            close_deadline: Some(linger_end(at.instant)),
            ..self.given_all(left)
        }.flushed(at.wall)
    }

    /// Closing is over: everything has been acknowledged, or the wait for it has been too long.
    pub open spec fn closed(self, at: Moment) -> bool {
        self.closing && (!self.engine.unsent() || (match self.close_deadline {
            Some(d) => at.instant >= d,
            None => false,
        }))
    }

    /// The event has been dealt with, and did not end the task.
    pub open spec fn met(self, event: TaskEvent) -> Self {
        match event {
            TaskEvent::Timer(at) => self.on_timer(at).drained(),
            TaskEvent::Packet(data, at) => ActorModel {
                engine: self.engine.fed(data, at.wall),
                ..self
            }.flushed(at.wall).drained(),
            TaskEvent::DataEnd(at) => self.flushed(at.wall).drained(),
            TaskEvent::WritersGone => ActorModel { send_closed: true, ..self },
            TaskEvent::Taken => ActorModel {
                engine: if self.engine.has_message() {
                    self.engine.received()
                } else {
                    self.engine
                },
                ..self
            },
        }
    }

    /// The event ends the task: the link has been given up, or the peer is gone.
    pub open spec fn stops(self, event: TaskEvent) -> bool {
        match event {
            TaskEvent::Timer(at) => self.engine.gives_up(at.wall) || self.flushed(
                at.wall,
            ).peer_gone(at),
            TaskEvent::Packet(data, at) => self.engine.fed(data, at.wall).gives_up(at.wall),
            TaskEvent::DataEnd(at) => self.engine.gives_up(at.wall),
            TaskEvent::WritersGone => false,
            TaskEvent::Taken => false,
        }
    }

    /// The task is over after the event: the event ends it, or closing is over.
    pub open spec fn over(self, event: TaskEvent, at: Moment) -> bool {
        self.stops(event) || self.met(event).closed(at)
    }

    /// The events have been dealt with, one after the other.
    pub open spec fn met_all(self, events: Seq<TaskEvent>) -> Self
        decreases events.len(),
    {
        if events.len() == 0 {
            self
        } else {
            self.met_all(events.drop_last()).met(events.last())
        }
    }

    /// What holds of every actor between two events. One that is closing takes no more data, and
    /// knows when it stops waiting.
    pub open spec fn wf(self) -> bool {
        &&& self.engine.wf()
        &&& self.closing ==> self.send_closed && self.close_deadline is Some
    }
}

/// What happens to a task, apart from commands and data. A task that is closing takes neither.
pub enum TaskEvent {
    /// The timer has run out.
    Timer(Moment),
    /// A packet of the peer has come.
    Packet(Seq<u8>, Moment),
    /// Data that was queued has been flushed.
    DataEnd(Moment),
    /// No more data will come from the application.
    WritersGone,
    /// The application has asked for a message.
    Taken,
}

/// When a task that begins to close at this instant stops waiting.
pub open spec fn linger_end(instant: u64) -> u64 {
    if instant + LINGER_MS <= u64::MAX {
        (instant + LINGER_MS) as u64
    } else {
        u64::MAX
    }
}

impl EngineActor {
    /// What holds of every actor between two events.
    pub open spec fn wf(&self) -> bool {
        self@.wf()
    }

    /// A task that has just begun.
    pub fn new(engine: KcpEngine, settings: ActorSettings, instant: u64) -> (r: Self)
        requires
            engine.wf(),
        ensures
            r.wf(),
            r@ == (ActorModel {
                engine: engine@,
                settings,
                last_probe: instant,
                send_closed: false,
                closing: false,
                close_deadline: None,
            }),
    {
        EngineActor {
            engine,
            settings,
            last_probe: instant,
            send_closed: false,
            closing: false,
            close_deadline: None,
        }
    }

    /// Take the datagrams that are ready to leave.
    fn take_output(&mut self) -> (r: Vec<Bytes>)
        requires
            old(self).wf(),
        ensures
            final(self).wf(),
            final(self)@ == old(self)@.drained(),
            engine::contents(r@) == old(self)@.engine.output,
    {
        self.engine.drain_output()
    }

    /// Bring the engine up to date before the first event.
    pub fn begin(&mut self, at: Moment) -> (r: Vec<Bytes>)
        requires
            old(self).wf(),
        ensures
            final(self).wf(),
            final(self)@ == (ActorModel {
                engine: old(self)@.engine.updated(at.wall),
                ..old(self)@
            }).drained(),
            engine::contents(r@) == old(self)@.engine.updated(at.wall).output,
    {
        let _ = self.engine.update_at(at.wall);
        self.take_output()
    }

    /// How long to sleep, in milliseconds.
    pub fn wait_ms(&self, now: Timestamp) -> (r: u64)
        requires
            self.wf(),
        ensures
            r == self@.wait(now),
    {
        let ka: u64 = match self.settings.keep_alive_ms {
            Some(ka) => ka,
            None => 1000,
        };
        let floor: u64 = if self.settings.update_interval_ms < 1 {
            1
        } else {
            self.settings.update_interval_ms
        };
        let cap: u64 = if ka < floor {
            floor
        } else {
            ka
        };
        let d: u64 = self.engine.check_at(now) as u64;
        if d < 1 {
            1
        } else if d > cap {
            cap
        } else {
            d
        }
    }

    /// Whether commands are listened to.
    pub fn takes_commands(&self) -> (r: bool)
        ensures
            r == !self@.closing,
    {
        !self.closing
    }

    /// Whether data from the application is taken: not once it is over, and not while too many
    /// segments wait.
    pub fn takes_data(&self) -> (r: bool)
        ensures
            r == (!self@.send_closed && self@.engine.snd_queue.len()
                < self@.settings.send_high_water),
    {
        !self.send_closed && self.engine.send_queue_len() < self.settings.send_high_water
    }

    /// Whether more data is taken before a flush.
    pub fn has_room(&self) -> (r: bool)
        ensures
            r == (self@.engine.snd_queue.len() < self@.settings.send_high_water),
    {
        self.engine.send_queue_len() < self.settings.send_high_water
    }

    /// The timer has run out: flush, end the task if the link or the peer is gone, and keep
    /// the link alive.
    pub fn on_timer(&mut self, at: Moment) -> (r: Step)
        requires
            old(self).wf(),
        ensures
            final(self).wf(),
            ({
                let f = old(self)@.flushed(at.wall);
                if old(self)@.engine.gives_up(at.wall) || f.peer_gone(at) {
                    r is Stop && final(self)@ == f
                } else {
                    r.sends(old(self)@.on_timer(at).engine.output) && final(self)@ == old(
                        self,
                    )@.on_timer(at).drained()
                }
            }),
            r is Stop <==> old(self)@.stops(TaskEvent::Timer(at)),
            !(r is Stop) ==> final(self)@ == old(self)@.met(TaskEvent::Timer(at)),
    {
        if self.engine.flush_at(at.wall).is_err() {
            return Step::Stop;
        }
        if let Some(ka) = self.settings.keep_alive_ms {
            let idle: u64 = self.engine.idle_ms_at(at.wall) as u64;
            let limit: u64 = if ka > u64::MAX / 3 {
                u64::MAX
            } else {
                ka * 3
            };
            if idle >= limit {
                return Step::Stop;
            }
            let since: u64 = if at.instant < self.last_probe {
                0
            } else {
                at.instant - self.last_probe
            };
            if idle >= ka && since >= ka {
                self.last_probe = at.instant;
                let _ = self.engine.keep_alive_probe_at(at.wall);
            }
        }
        Step::Send(self.take_output())
    }

    /// A command to flush.
    pub fn on_flush(&mut self, at: Moment) -> (r: (KcpResult<()>, Vec<Bytes>))
        requires
            old(self).wf(),
        ensures
            final(self).wf(),
            final(self)@ == old(self)@.flushed(at.wall).drained(),
            engine::contents(r.1@) == old(self)@.flushed(at.wall).engine.output,
            r.0 is Err <==> old(self)@.engine.gives_up(at.wall),
            r.0 matches Err(e) ==> e == (KcpError::Connection {
                kind: crate::error::ConnectionError::Lost,
            }),
    {
        let result = match self.engine.flush_at(at.wall) {
            Ok(()) => Ok(()),
            Err(e) => Err(KcpError::from(e)),
        };
        (result, self.take_output())
    }

    /// A command for statistics.
    pub fn stats(&self) -> (r: KcpStats)
        ensures
            r == self@.engine.stats,
    {
        *self.engine.stats()
    }

    /// A command that asks whether the link is alive.
    pub fn is_alive(&self) -> (r: bool)
        ensures
            r == !self@.engine.dead(),
    {
        !self.engine.is_dead()
    }

    /// A command to close, with the data that was still on its way to the engine.
    pub fn on_close(&mut self, left: Vec<Bytes>, at: Moment) -> (r: Vec<Bytes>)
        requires
            old(self).wf(),
        ensures
            final(self).wf(),
            final(self)@ == old(self)@.begun_closing(engine::contents(left@), at).drained(),
            engine::contents(r@) == old(self)@.begun_closing(
                engine::contents(left@),
                at,
            ).engine.output,
    {
        let ghost start = self@;
        let ghost all = engine::contents(left@);
        let mut i: usize = 0;
        assert(all.take(0) =~= Seq::empty());
        while i < left.len()
            invariant
                i <= left@.len(),
                all == engine::contents(left@),
                self.wf(),
                self@ == start.given_all(all.take(i as int)),
            decreases left@.len() - i,
        {
            proof {
                assert(all.take(i + 1).drop_last() =~= all.take(i as int));
                assert(all.take(i + 1).last() == all[i as int]);
            }
            let _ = self.on_data(buffers::share(&left[i]));
            i = i + 1;
        }
        assert(all.take(i as int) =~= all);
        self.send_closed = true;
        self.closing = true;
        self.close_deadline = Some(at.instant.saturating_add(LINGER_MS));
        let _ = self.engine.flush_at(at.wall);
        self.take_output()
    }

    /// A packet of the peer.
    pub fn on_packet(&mut self, data: Bytes, at: Moment) -> (r: Step)
        requires
            old(self).wf(),
        ensures
            final(self).wf(),
            ({
                let fed = ActorModel {
                    engine: old(self)@.engine.fed(buffers::bytes_of(data), at.wall),
                    ..old(self)@
                };
                let f = fed.flushed(at.wall);
                if fed.engine.gives_up(at.wall) {
                    r is Stop && final(self)@ == f
                } else {
                    r.sends(f.engine.output) && final(self)@ == f.drained()
                }
            }),
            r is Stop <==> old(self)@.stops(TaskEvent::Packet(buffers::bytes_of(data), at)),
            !(r is Stop) ==> final(self)@ == old(self)@.met(TaskEvent::Packet(buffers::bytes_of(data), at)),
    {
        let _ = self.engine.input_at(data, at.wall);
        self.flush_and_send(at)
    }

    /// Flush, and end the task if the link is gone.
    fn flush_and_send(&mut self, at: Moment) -> (r: Step)
        requires
            old(self).wf(),
        ensures
            final(self).wf(),
            ({
                let f = old(self)@.flushed(at.wall);
                if old(self)@.engine.gives_up(at.wall) {
                    r is Stop && final(self)@ == f
                } else {
                    r.sends(f.engine.output) && final(self)@ == f.drained()
                }
            }),
    {
        if self.engine.flush_at(at.wall).is_err() {
            return Step::Stop;
        }
        Step::Send(self.take_output())
    }

    /// Data of the application: queue it.
    pub fn on_data(&mut self, data: Bytes) -> (r: KcpCoreResult<()>)
        requires
            old(self).wf(),
        ensures
            final(self).wf(),
            final(self)@ == old(self)@.given(buffers::bytes_of(data)),
            r is Ok <==> old(self)@.engine.accepts(buffers::bytes_of(data).len() as int),
            r matches Err(e) ==> e.is_buffer("Message too large for window"@),
    {
        self.engine.send(data)
    }

    /// All data that was there has been queued: flush it.
    pub fn on_data_end(&mut self, at: Moment) -> (r: Step)
        requires
            old(self).wf(),
        ensures
            final(self).wf(),
            ({
                let f = old(self)@.flushed(at.wall);
                if old(self)@.engine.gives_up(at.wall) {
                    r is Stop && final(self)@ == f
                } else {
                    r.sends(f.engine.output) && final(self)@ == f.drained()
                }
            }),
            r is Stop <==> old(self)@.stops(TaskEvent::DataEnd(at)),
            !(r is Stop) ==> final(self)@ == old(self)@.met(TaskEvent::DataEnd(at)),
    {
        self.flush_and_send(at)
    }

    /// No more data will come from the application.
    pub fn on_writers_gone(&mut self)
        ensures
            final(self)@ == old(self)@.met(TaskEvent::WritersGone),
            old(self).wf() ==> final(self).wf(),
    {
        self.send_closed = true;
    }

    /// Take the next message for the application. It stays in the engine until this is called.
    pub fn take_message(&mut self) -> (r: Option<Bytes>)
        requires
            old(self).wf(),
        ensures
            final(self).wf(),
            old(self)@.engine.has_message() ==> r is Some && buffers::bytes_of(r->0) == old(
                self,
            )@.engine.first_message() && final(self)@ == (ActorModel {
                engine: old(self)@.engine.received(),
                ..old(self)@
            }),
            !old(self)@.engine.has_message() ==> r is None && final(self)@ == old(self)@,
            final(self)@ == old(self)@.met(TaskEvent::Taken),
    {
        match self.engine.recv() {
            Ok(message) => message,
            Err(_) => None,
        }
    }

    /// After an event: where closing is over, the last datagrams.
    pub fn finish(&mut self, at: Moment) -> (r: Option<Vec<Bytes>>)
        requires
            old(self).wf(),
        ensures
            final(self).wf(),
            r is Some <==> old(self)@.closed(at),
            r is None ==> final(self)@ == old(self)@,
            r matches Some(p) ==> engine::contents(p@) == old(self)@.flushed(at.wall).engine.output
                && final(self)@ == old(self)@.flushed(at.wall).drained(),
    {
        if !self.closing {
            return None;
        }
        let late = match self.close_deadline {
            Some(d) => at.instant >= d,
            None => false,
        };
        if self.engine.has_unsent_data() && !late {
            return None;
        }
        let _ = self.engine.flush_at(at.wall);
        Some(self.take_output())
    }
}

/// The task never sleeps without end, nor for no time at all.
pub proof fn law_sleep_is_bounded(m: ActorModel, now: u32)
    ensures
        1 <= m.wait(now) <= m.idle_cap(),
{
}

/// The task sleeps past nothing that the engine has to send.
pub proof fn law_sleep_misses_nothing(m: ActorModel, now: u32, t: int)
    requires
        m.wf(),
        0 <= t < m.wait(now),
        m.engine.next_deadline(now) > 0,
    ensures
        m.engine.flushed(sequence::advanced(now, t)).output == m.engine.output,
{
    engine::control_laws::law_nothing_is_due_before_deadline(m.engine, now, t);
}

/// A peer that is probed is not probed again within the keep-alive interval.
pub proof fn law_one_probe_per_interval(m: ActorModel, at: Moment, later: Moment, ka: u64)
    requires
        m.settings.keep_alive_ms == Some(ka),
        m.flushed(at.wall).probe_due(at),
        at.instant <= later.instant,
        later.instant - at.instant < ka,
    ensures
        !m.on_timer(at).drained().flushed(later.wall).probe_due(later),
{
}

/// A flush does not make a silent peer less silent.
pub proof fn law_silence_survives_flush(m: ActorModel, at: Moment)
    ensures
        m.flushed(at.wall).peer_gone(at) == m.peer_gone(at),
{
}

/// A task that is closing stays so, with the same deadline, whatever happens: no command and no
/// data is taken until it ends.
pub proof fn law_closing_is_final(m: ActorModel, event: TaskEvent)
    requires
        m.closing,
        m.send_closed,
    ensures
        m.met(event).closing,
        m.met(event).send_closed,
        m.met(event).close_deadline == m.close_deadline,
        m.met(event).settings == m.settings,
{
}

/// Of a task that is closing, after whatever happens, closing is over exactly when everything has
/// been sent and acknowledged or the deadline has passed.
pub proof fn law_closing_ends_in_time(
    m: ActorModel,
    deadline: u64,
    events: Seq<TaskEvent>,
    later: Moment,
)
    requires
        m.closing,
        m.send_closed,
        m.close_deadline == Some(deadline),
    ensures
        ({
            let c = m.met_all(events);
            &&& c.closing
            &&& c.send_closed
            &&& c.close_deadline == Some(deadline)
            &&& c.closed(later) <==> !c.engine.unsent() || later.instant >= deadline
        }),
    decreases events.len(),
{
    if events.len() > 0 {
        law_closing_ends_in_time(m, deadline, events.drop_last(), later);
        law_closing_is_final(m.met_all(events.drop_last()), events.last());
    }
}

/// A whole close: the task begins to close, deals with any events, and is over after one more.
/// Then everything has been sent and acknowledged, or ten seconds have passed since it began, or
/// the last event has given up the link or the peer.
pub proof fn law_closing_waits_for_acknowledgements(
    m: ActorModel,
    left: Seq<Seq<u8>>,
    at: Moment,
    events: Seq<TaskEvent>,
    event: TaskEvent,
    later: Moment,
)
    ensures
        ({
            let c = m.begun_closing(left, at).drained().met_all(events);
            c.over(event, later) <==> {
                ||| !c.met(event).engine.unsent()
                ||| later.instant >= linger_end(at.instant)
                ||| c.stops(event)
            }
        }),
{
    let start = m.begun_closing(left, at).drained();
    let all = events.push(event);
    assert(all.drop_last() =~= events);
    assert(start.met_all(all) == start.met_all(events).met(event));
    lemma_given_all_frame(m, left);
    law_closing_ends_in_time(start, linger_end(at.instant), all, later);
}

/// A task that was found over has ended: when it began to close, or after one of the events.
pub open spec fn has_ended(
    start: ActorModel,
    begun: Moment,
    events: Seq<TaskEvent>,
    moments: Seq<Moment>,
) -> bool {
    ||| start.closed(begun)
    ||| exists|j: int|
        0 <= j < events.len() && (#[trigger] start.met_all(events.take(j))).over(
            events[j],
            moments[j],
        )
}

/// Everything had been sent and acknowledged, or the deadline had passed, or the link or the peer
/// was given up: when the task began to close, or after one of the events.
pub open spec fn had_reason(
    start: ActorModel,
    deadline: u64,
    begun: Moment,
    events: Seq<TaskEvent>,
    moments: Seq<Moment>,
) -> bool {
    ||| !start.engine.unsent()
    ||| begun.instant >= deadline
    ||| exists|j: int|
        {
            let c = #[trigger] start.met_all(events.take(j));
            &&& 0 <= j < events.len()
            &&& {
                ||| !c.met(events[j]).engine.unsent()
                ||| moments[j].instant >= deadline
                ||| c.stops(events[j])
            }
        }
}

/// A task that began to close has not ended without a reason.
pub proof fn law_close_ends_with_reason(
    m: ActorModel,
    left: Seq<Seq<u8>>,
    at: Moment,
    begun: Moment,
    events: Seq<TaskEvent>,
    moments: Seq<Moment>,
)
    requires
        has_ended(m.begun_closing(left, at).drained(), begun, events, moments),
    ensures
        had_reason(
            m.begun_closing(left, at).drained(),
            linger_end(at.instant),
            begun,
            events,
            moments,
        ),
{
    let start = m.begun_closing(left, at).drained();
    if !start.closed(begun) {
        let j = choose|j: int|
            0 <= j < events.len() && (#[trigger] start.met_all(events.take(j))).over(
                events[j],
                moments[j],
            );
        law_closing_waits_for_acknowledgements(
            m,
            left,
            at,
            events.take(j),
            events[j],
            moments[j],
        );
        let c = start.met_all(events.take(j));
        assert(!c.met(events[j]).engine.unsent() || moments[j].instant >= linger_end(at.instant)
            || c.stops(events[j]));
    } else {
        lemma_given_all_frame(m, left);
        law_closing_ends_in_time(start, linger_end(at.instant), Seq::empty(), begun);
    }
}

/// Handing over data changes the engine alone.
proof fn lemma_given_all_frame(m: ActorModel, data: Seq<Seq<u8>>)
    ensures
        m.given_all(data) == (ActorModel { engine: m.given_all(data).engine, ..m }),
    decreases data.len(),
{
    if data.len() > 0 {
        lemma_given_all_frame(m, data.drop_last());
    }
}

/// A close that ends before its deadline loses nothing: the receiver has every segment that was
/// ever numbered, and none waits for a number.
pub proof fn law_timely_close_loses_nothing(
    m: ActorModel,
    b: EngineModel,
    at: Moment,
    base: u32,
    len: int,
    taken: int,
)
    requires
        m.closed(at),
        m.close_deadline matches Some(d) ==> at.instant < d,
        engine::supply::supplied(m.engine, b, base, len, taken),
    ensures
        m.engine.snd_queue.len() == 0,
        forall|k: int| 0 <= k < len ==> #[trigger] b.has(base, taken, k),
{
    engine::supply::law_nothing_unsent_is_missing(m.engine, b, base, len, taken);
}

} // verus!
