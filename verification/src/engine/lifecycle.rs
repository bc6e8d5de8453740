//! Making an engine, asking it questions, and telling when it has to be woken.
use super::{EngineModel, KcpEngine, ProbeState, RttState, WindowState};
use crate::buffers;
use crate::clock::current_timestamp;
use crate::config::KcpCoreConfig;
use crate::engine;
use crate::error::KcpCoreResult;
use crate::protocol::constants;
use crate::protocol::{ConvId, KcpStats, SegmentModel, Timestamp};
use crate::sequence;
use crate::sequence::time_diff;
use bytes::{Bytes, BytesMut};
use std::collections::VecDeque;
use vstd::prelude::*;

verus! {

/// The settings with room for at least one byte of data beside the header.
pub open spec fn usable(config: KcpCoreConfig) -> KcpCoreConfig {
    if config.mtu <= constants::IKCP_OVERHEAD {
        KcpCoreConfig { mtu: 25, ..config }
    } else {
        config
    }
}

/// How long it takes from `now` until `ts`; nothing if `ts` has come.
pub open spec fn until(now: u32, ts: u32) -> u32 {
    if sequence::before(now, ts) {
        sequence::distance(now, ts) as u32
    } else {
        0
    }
}

/// How long it takes until the first of the segments runs out of time.
pub open spec fn soonest(segs: Seq<SegmentModel>, now: u32) -> u32
    decreases segs.len(),
{
    if segs.len() == 0 {
        u32::MAX
    } else {
        let rest = soonest(segs.drop_last(), now);
        let last = until(now, segs.last().resendts);
        if last < rest {
            last
        } else {
            rest
        }
    }
}

impl EngineModel {
    /// A new engine.
    pub open spec fn fresh(conv: ConvId, config: KcpCoreConfig, now: Timestamp) -> Self {
        EngineModel {
            conv,
            config: usable(config),
            snd_una: 0,
            snd_nxt: 0,
            rcv_nxt: 0,
            rtt: RttState {
                avg: 0,
                var: 0,
                rto: constants::IKCP_RTO_DEF,
                min_rto: if config.nodelay.nodelay {
                    constants::IKCP_RTO_NDL
                } else {
                    constants::IKCP_RTO_MIN
                },
            },
            wnd: WindowState {
                snd: config.snd_wnd,
                rcv: config.rcv_wnd,
                rmt: constants::IKCP_WND_RCV,
                cwnd: config.snd_wnd,
                ssthresh: constants::IKCP_THRESH_INIT,
                incr: 0,
            },
            probe: ProbeState { ask_send: false, ask_tell: false, wait: 0, ts: 0 },
            snd_queue: Seq::empty(),
            rcv_queue: Seq::empty(),
            snd_buf: Seq::empty(),
            rcv_buf: Seq::empty(),
            ack_list: Seq::empty(),
            output: Seq::empty(),
            stats: KcpStats::zero(),
            last_update: now,
            last_recv: now,
            xmit_count: 0,
        }
    }

    /// There have been as many retransmissions for want of an acknowledgement as it takes to give
    /// the link up.
    pub open spec fn dead(self) -> bool {
        self.xmit_count >= self.dead_link()
    }

    /// Some data has not been sent, or not been acknowledged.
    pub open spec fn unsent(self) -> bool {
        self.snd_queue.len() > 0 || self.snd_buf.len() > 0
    }

    /// A segment in flight is to be sent whatever the time.
    pub open spec fn presses(self, seg: SegmentModel) -> bool {
        seg.xmit == 0 || (seg.fastack >= self.pass(0).threshold() && seg.xmit
            <= constants::IKCP_FASTACK_LIMIT)
    }

    /// A flush has something to do whatever the time.
    pub open spec fn urgent(self) -> bool {
        ||| self.ack_list.len() > 0
        ||| self.probe.ask_send
        ||| self.probe.ask_tell
        ||| self.movable() > 0
        ||| (self.wnd.rmt == 0 && self.probe.wait == 0)
        ||| exists|i: int| 0 <= i < self.snd_buf.len() && self.presses(#[trigger] self.snd_buf[i])
    }

    /// How long it takes until a flush has something to do.
    pub open spec fn next_deadline(self, now: u32) -> u32 {
        if self.urgent() {
            0
        } else {
            let data = soonest(self.snd_buf, now);
            let probe = until(now, self.probe.ts);
            if self.wnd.rmt == 0 && probe < data {
                probe
            } else {
                data
            }
        }
    }

    /// A keep-alive probe has been sent at the time `now`.
    pub open spec fn nudged(self, now: u32) -> Self {
        EngineModel {
            output: self.output.push(self.control(constants::IKCP_CMD_WASK, 0, now).wire()),
            stats: KcpStats {
                packets_sent: ((self.stats.packets_sent + 1) % 0x1_0000_0000_0000_0000) as u64,
                ..self.stats
            },
            ..self
        }
    }
}

/// A new engine is well-formed.
pub proof fn lemma_fresh_wf(conv: ConvId, config: KcpCoreConfig, now: Timestamp)
    requires
        config.mtu <= usize::MAX / 8,
    ensures
        EngineModel::fresh(conv, config, now).wf(),
{
}

/// How long it takes from `now` until `ts`.
fn wait_until(now: u32, ts: u32) -> (r: u32)
    ensures
        r == until(now, ts),
{
    if time_diff(now, ts) < 0 {
        ts.wrapping_sub(now)
    } else {
        0
    }
}

impl KcpEngine {
    /// Create a new KCP engine at the time `now`. A transmission unit that leaves no room for
    /// data is raised until it does.
    pub fn new_at(conv: ConvId, config: KcpCoreConfig, now: Timestamp) -> (r: Self)
        requires
            config.mtu <= usize::MAX / 8,
        ensures
            r@ == EngineModel::fresh(conv, config, now),
            r.wf(),
    {
        let min_rto: u32 = if config.nodelay.nodelay {
            constants::IKCP_RTO_NDL
        } else {
            constants::IKCP_RTO_MIN
        };
        let mut config = config;
        if config.mtu <= constants::IKCP_OVERHEAD {
            config.mtu = constants::IKCP_OVERHEAD + 1;
        }
        let r = KcpEngine {
            conv,
            config,
            snd_una: 0,
            snd_nxt: 0,
            rcv_nxt: 0,
            rtt: RttState { avg: 0, var: 0, rto: constants::IKCP_RTO_DEF, min_rto },
            wnd: WindowState {
                snd: config.snd_wnd,
                rcv: config.rcv_wnd,
                rmt: constants::IKCP_WND_RCV,
                cwnd: config.snd_wnd,
                ssthresh: constants::IKCP_THRESH_INIT,
                incr: 0,
            },
            probe: ProbeState { ask_send: false, ask_tell: false, wait: 0, ts: 0 },
            snd_queue: VecDeque::new(),
            rcv_queue: VecDeque::new(),
            snd_buf: VecDeque::new(),
            rcv_buf: VecDeque::new(),
            ack_list: Vec::new(),
            output: Vec::new(),
            stats: KcpStats::default(),
            last_update: now,
            last_recv: now,
            xmit_count: 0,
        };
        assert(r@ =~= EngineModel::fresh(conv, config, now));
        r
    }

    /// Create a new KCP engine.
    pub fn new(conv: ConvId, config: KcpCoreConfig) -> (r: Self)
        requires
            config.mtu <= usize::MAX / 8,
        ensures
            exists|now: u32| r@ == #[trigger] EngineModel::fresh(conv, config, now),
            r.wf(),
    {
        KcpEngine::new_at(conv, config, current_timestamp())
    }

    /// Start the engine.
    pub fn start(&mut self) -> (r: KcpCoreResult<()>)
        ensures
            r is Ok,
            final(self)@ == old(self)@,
    {
        Ok(())
    }

    /// Take the datagrams that are ready to leave.
    pub fn drain_output(&mut self) -> (r: Vec<Bytes>)
        ensures
            engine::contents(r@) == old(self)@.output,
            final(self)@ == (EngineModel { output: Seq::empty(), ..old(self)@ }),
            old(self).wf() ==> final(self).wf(),
    {
        let mut r: Vec<Bytes> = Vec::new();
        core::mem::swap(&mut self.output, &mut r);
        assert(engine::contents(self.output@) =~= Seq::empty());
        r
    }

    /// Get current statistics.
    pub fn stats(&self) -> (r: &KcpStats)
        ensures
            *r == self@.stats,
    {
        &self.stats
    }

    /// The conversation.
    pub fn conv(&self) -> (r: ConvId)
        ensures
            r == self@.conv,
    {
        self.conv
    }

    /// Switch to another conversation.
    pub fn set_conv(&mut self, conv: ConvId)
        ensures
            final(self)@ == (EngineModel { conv, ..old(self)@ }),
            old(self).wf() ==> final(self).wf(),
    {
        self.conv = conv;
    }

    /// How many retransmissions it takes to give the link up.
    pub(crate) fn dead_link(&self) -> (r: u32)
        ensures
            r == self@.dead_link(),
    {
        if self.config.max_retries == 0 {
            1
        } else {
            self.config.max_retries
        }
    }

    /// Check if the link has been given up.
    pub fn is_dead(&self) -> (r: bool)
        ensures
            r == self@.dead(),
    {
        self.xmit_count >= self.dead_link()
    }

    /// How many segments wait for a number.
    pub fn send_queue_len(&self) -> (r: usize)
        ensures
            r == self@.snd_queue.len(),
    {
        self.snd_queue.len()
    }

    /// Check if any data has not been sent, or not been acknowledged.
    pub fn has_unsent_data(&self) -> (r: bool)
        ensures
            r == self@.unsent(),
    {
        self.snd_queue.len() > 0 || self.snd_buf.len() > 0
    }

    /// How long ago the last packet came in, at the time `now`.
    pub fn idle_ms_at(&self, now: Timestamp) -> (r: u32)
        ensures
            r == sequence::distance(self@.last_recv, now),
    {
        now.wrapping_sub(self.last_recv)
    }

    /// How long ago the last packet came in.
    pub fn idle_ms(&self) -> (r: u32)
        ensures
            exists|now: u32| r == #[trigger] sequence::distance(self@.last_recv, now),
    {
        let now: u32 = current_timestamp();
        self.idle_ms_at(now)
    }

    /// Ask the peer for its window at the time `now`, to keep the link alive.
    pub fn keep_alive_probe_at(&mut self, now: Timestamp) -> (r: KcpCoreResult<()>)
        requires
            old(self).wf(),
        ensures
            r is Ok,
            final(self).wf(),
            final(self)@ == old(self)@.nudged(now),
    {
        let segment = self.control_segment(constants::IKCP_CMD_WASK, 0, now);
        let mut buf = BytesMut::with_capacity(segment.size());
        segment.encode(&mut buf);
        assert(buffers::buf_of(buf) =~= segment@.wire());
        let packet = buf.freeze();
        let ghost before = self.output@;
        self.output.push(packet);
        self.stats.packets_sent = self.stats.packets_sent.wrapping_add(1);
        assert(engine::contents(self.output@) =~= engine::contents(before).push(segment@.wire()));
        Ok(())
    }

    /// Ask the peer for its window, to keep the link alive.
    pub fn keep_alive_probe(&mut self) -> (r: KcpCoreResult<()>)
        requires
            old(self).wf(),
        ensures
            r is Ok,
            final(self).wf(),
            exists|now: u32| final(self)@ == #[trigger] old(self)@.nudged(now),
    {
        let now: u32 = current_timestamp();
        self.keep_alive_probe_at(now)
    }

    /// How long it takes until the first segment in flight runs out of time, unless one is to
    /// be sent whatever the time.
    fn data_deadline(&self, now: Timestamp) -> (r: Option<u32>)
        ensures
            r is None <==> exists|i: int|
                0 <= i < self@.snd_buf.len() && self@.presses(#[trigger] self@.snd_buf[i]),
            r matches Some(w) ==> w == soonest(self@.snd_buf, now),
    {
        let threshold: u32 = if self.config.nodelay.resend > 0 {
            self.config.nodelay.resend
        } else {
            u32::MAX
        };
        let ghost buf = self@.snd_buf;
        let mut data: u32 = u32::MAX;
        let mut i: usize = 0;
        while i < self.snd_buf.len()
            invariant
                buf == self@.snd_buf,
                threshold == self@.pass(0).threshold(),
                i <= buf.len(),
                data == soonest(buf.take(i as int), now),
                forall|k: int| 0 <= k < i ==> !self@.presses(#[trigger] buf[k]),
            decreases buf.len() - i,
        {
            let segment = &self.snd_buf[i];
            proof {
                assert(buf[i as int] == segment@);
                assert(buf.take(i + 1).drop_last() =~= buf.take(i as int));
                assert(buf.take(i + 1).last() == buf[i as int]);
            }
            if segment.xmit == 0 || (segment.fastack >= threshold && segment.xmit
                <= constants::IKCP_FASTACK_LIMIT) {
                assert(self@.presses(self@.snd_buf[i as int]));
                return None;
            }
            let wait: u32 = wait_until(now, segment.resendts);
            if wait < data {
                data = wait;
            }
            i = i + 1;
        }
        assert(buf.take(i as int) =~= buf);
        Some(data)
    }

    /// Milliseconds from `now` until a flush has something to do: 0 if it has now, and the
    /// largest number if nothing is pending.
    pub fn check_at(&self, now: Timestamp) -> (r: u32)
        requires
            self.wf(),
        ensures
            r == self@.next_deadline(now),
    {
        if self.ack_list.len() > 0 || self.probe.ask_send || self.probe.ask_tell {
            return 0;
        }
        if self.wnd.rmt == 0 && self.probe.wait == 0 {
            return 0;
        }
        if self.snd_queue.len() > 0 && self.window_left() > 0 {
            return 0;
        }
        match self.data_deadline(now) {
            None => 0,
            Some(data) => {
                assert(!self@.urgent());
                if self.wnd.rmt == 0 {
                    let probe: u32 = wait_until(now, self.probe.ts);
                    if probe < data {
                        return probe;
                    }
                }
                data
            },
        }
    }

    /// Milliseconds until a flush has something to do.
    pub fn check(&self) -> (r: u32)
        requires
            self.wf(),
        ensures
            exists|now: u32| r == #[trigger] self@.next_deadline(now),
    {
        let now: u32 = current_timestamp();
        self.check_at(now)
    }
}

} // verus!
