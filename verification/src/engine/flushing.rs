//! Outgoing packets: acknowledgements, window probes, first transmissions and
//! retransmissions, and the congestion control that goes with them.
use super::input::cap;
use super::packing::Packer;
use super::{EngineModel, KcpEngine, ProbeState, WindowState};
use crate::clock::current_timestamp;
use crate::config::NodeDelayConfig;
use crate::engine;
use crate::error::{KcpCoreError, KcpCoreResult};
use crate::protocol::constants;
use crate::protocol::{KcpHeader, KcpSegment, KcpStats, SegmentModel};
use crate::sequence;
use crate::sequence::{advance, time_diff};
use bytes::Bytes;
use std::collections::VecDeque;
use vstd::prelude::*;

verus! {

/// What a flush does with a segment in flight.
#[derive(Debug, Clone, Copy, PartialEq, Eq, Structural)]
pub enum Attempt {
    /// It is sent for the first time.
    First,
    /// It is sent again because its time has run out.
    Timeout,
    /// It is sent again because later segments have overtaken it.
    Fast,
    /// It is left alone.
    Quiet,
}

/// What a flush goes by when it looks at the segments in flight.
#[derive(Debug, Clone, Copy, PartialEq, Eq, Structural)]
pub struct Pass {
    /// The time
    pub now: u32,
    /// The retransmission timeout
    pub rto: u32,
    /// The settings on delay
    pub nodelay: NodeDelayConfig,
    /// The window that is advertised
    pub wnd: u16,
    /// The number that is expected from the peer next
    pub una: u32,
    /// How many retransmissions it takes to give up
    pub dead_link: u32,
}

impl Pass {
    /// How often a segment has to be overtaken to be sent again early.
    pub open spec fn threshold(self) -> u32 {
        if self.nodelay.resend > 0 {
            self.nodelay.resend
        } else {
            u32::MAX
        }
    }

    /// How long a first transmission is given beyond the timeout.
    pub open spec fn grace(self) -> int {
        if self.nodelay.nodelay {
            0
        } else {
            self.rto as int / 8
        }
    }

    /// The timeout of a segment after it has run out once more.
    pub open spec fn backed_off(self, rto: u32) -> u32 {
        if self.nodelay.nodelay {
            if self.nodelay.no_congestion_control {
                engine::input::capped(rto + self.rto as int / 2)
            } else {
                engine::input::capped(rto + rto as int / 2)
            }
        } else {
            engine::input::capped(
                rto + engine::input::larger(rto as int, self.nodelay.interval as int),
            )
        }
    }

    /// What is done with a segment.
    pub open spec fn decide(self, seg: SegmentModel) -> Attempt {
        if seg.xmit == 0 {
            Attempt::First
        } else if !sequence::before(self.now, seg.resendts) {
            Attempt::Timeout
        } else if seg.fastack >= self.threshold() && seg.xmit <= constants::IKCP_FASTACK_LIMIT {
            Attempt::Fast
        } else {
            Attempt::Quiet
        }
    }

    /// The header of a segment that is sent now.
    pub open spec fn stamped(self, h: KcpHeader) -> KcpHeader {
        KcpHeader { ts: self.now, wnd: self.wnd, una: self.una, ..h }
    }

    /// A segment after it has been looked at.
    pub open spec fn tried(self, seg: SegmentModel) -> SegmentModel {
        match self.decide(seg) {
            Attempt::First => SegmentModel {
                header: self.stamped(seg.header),
                xmit: 1,
                rto: self.rto,
                resendts: sequence::advanced(self.now, self.rto + self.grace()),
                ..seg
            },
            Attempt::Timeout => SegmentModel {
                header: self.stamped(seg.header),
                xmit: engine::input::capped(seg.xmit + 1),
                rto: self.backed_off(seg.rto),
                resendts: sequence::advanced(self.now, self.backed_off(seg.rto) as int),
                ..seg
            },
            Attempt::Fast => SegmentModel {
                header: self.stamped(seg.header),
                xmit: engine::input::capped(seg.xmit + 1),
                fastack: 0,
                resendts: sequence::advanced(self.now, seg.rto as int),
                ..seg
            },
            Attempt::Quiet => seg,
        }
    }

    /// The segment is sent for the last time: it has been retransmitted as often as it takes to
    /// give up. The first transmission is no retransmission.
    pub open spec fn fatal(self, seg: SegmentModel) -> bool {
        !(self.decide(seg) is Quiet) && self.tried(seg).xmit > self.dead_link
    }

    /// The segments after they have been looked at.
    pub open spec fn swept(self, segs: Seq<SegmentModel>) -> Seq<SegmentModel> {
        Seq::new(segs.len(), |i: int| self.tried(segs[i]))
    }

    /// Those of the segments that are sent, as they are sent.
    pub open spec fn transmitted(self, segs: Seq<SegmentModel>) -> Seq<SegmentModel>
        decreases segs.len(),
    {
        if segs.len() == 0 {
            Seq::empty()
        } else if self.decide(segs.last()) is Quiet {
            self.transmitted(segs.drop_last())
        } else {
            self.transmitted(segs.drop_last()).push(self.tried(segs.last()))
        }
    }

    /// How many of the segments meet with this.
    pub open spec fn count(self, segs: Seq<SegmentModel>, what: Attempt) -> nat
        decreases segs.len(),
    {
        if segs.len() == 0 {
            0
        } else {
            self.count(segs.drop_last(), what) + (if self.decide(segs.last()) == what {
                1nat
            } else {
                0
            })
        }
    }

    /// One of the segments is sent for the last time.
    pub open spec fn lost(self, segs: Seq<SegmentModel>) -> bool {
        exists|i: int| 0 <= i < segs.len() && self.fatal(#[trigger] segs[i])
    }

    /// How many segments are looked at until one is sent for the last time, counting it.
    pub open spec fn reach(self, segs: Seq<SegmentModel>) -> nat
        decreases segs.len(),
    {
        if segs.len() == 0 {
            0
        } else if self.lost(segs.drop_last()) {
            self.reach(segs.drop_last())
        } else {
            segs.len()
        }
    }

    /// Decides what is done with a segment, and does it to its state.
    fn attempt(&self, segment: &mut KcpSegment) -> (r: Attempt)
        requires
            self.rto <= constants::IKCP_RTO_MAX,
        ensures
            r == self.decide(old(segment)@),
            final(segment)@ == self.tried(old(segment)@),
    {
        let threshold: u32 = if self.nodelay.resend > 0 {
            self.nodelay.resend
        } else {
            u32::MAX
        };
        let r = if segment.xmit == 0 {
            let grace: u32 = if self.nodelay.nodelay {
                0
            } else {
                self.rto / 8
            };
            segment.xmit = 1;
            segment.rto = self.rto;
            segment.resendts = advance(self.now, self.rto + grace);
            Attempt::First
        } else if time_diff(self.now, segment.resendts) >= 0 {
            segment.xmit = segment.xmit.saturating_add(1);
            let step: u64 = if self.nodelay.nodelay {
                if self.nodelay.no_congestion_control {
                    self.rto as u64 / 2
                } else {
                    segment.rto as u64 / 2
                }
            } else if segment.rto < self.nodelay.interval {
                self.nodelay.interval as u64
            } else {
                segment.rto as u64
            };
            segment.rto = cap(segment.rto as u64 + step);
            segment.resendts = advance(self.now, segment.rto);
            Attempt::Timeout
        } else if segment.fastack >= threshold && segment.xmit <= constants::IKCP_FASTACK_LIMIT {
            segment.xmit = segment.xmit.saturating_add(1);
            segment.fastack = 0;
            segment.resendts = advance(self.now, segment.rto);
            Attempt::Fast
        } else {
            Attempt::Quiet
        };
        match r {
            Attempt::Quiet => {},
            _ => {
                segment.header.ts = self.now;
                segment.header.wnd = self.wnd;
                segment.header.una = self.una;
            },
        }
        r
    }
}

/// The windows after a flush: halved when segments were overtaken, back to one segment when
/// a timeout ran out.
pub open spec fn adjusted(
    wnd: WindowState,
    inflight: int,
    threshold: u32,
    mss: int,
    change: bool,
    lost: bool,
) -> WindowState {
    let w1 = if change {
        let ssthresh = engine::input::larger(inflight / 2, constants::IKCP_THRESH_MIN as int);
        let cwnd = engine::input::capped(ssthresh + threshold);
        WindowState {
            ssthresh: ssthresh as u32,
            cwnd,
            incr: engine::input::capped(cwnd * mss),
            ..wnd
        }
    } else {
        wnd
    };
    let w2 = if lost {
        WindowState {
            ssthresh: engine::input::larger(
                w1.cwnd as int / 2,
                constants::IKCP_THRESH_MIN as int,
            ) as u32,
            cwnd: 1,
            incr: mss as u32,
            ..w1
        }
    } else {
        w1
    };
    if w2.cwnd < 1 {
        WindowState { cwnd: 1, incr: mss as u32, ..w2 }
    } else {
        w2
    }
}

/// The probe state at the time `now`: while the peer's window is closed, a probe becomes due
/// each time the wait is over, and the wait grows by half.
pub open spec fn probing(probe: ProbeState, rmt: u32, now: u32) -> ProbeState {
    if rmt != 0 {
        ProbeState { ts: 0, wait: 0, ..probe }
    } else if probe.wait == 0 {
        ProbeState {
            wait: constants::IKCP_PROBE_INIT,
            ts: sequence::advanced(now, constants::IKCP_PROBE_INIT as int),
            ..probe
        }
    } else if !sequence::before(now, probe.ts) {
        let base = engine::input::larger(probe.wait as int, constants::IKCP_PROBE_INIT as int);
        let longer = base + base / 2;
        let wait = if longer > constants::IKCP_PROBE_LIMIT {
            constants::IKCP_PROBE_LIMIT
        } else {
            longer as u32
        };
        ProbeState { wait, ts: sequence::advanced(now, wait as int), ask_send: true, ..probe }
    } else {
        probe
    }
}

impl EngineModel {
    /// A segment without data. It tells the peer the window and what has been received.
    pub open spec fn control(self, cmd: u8, sn: u32, ts: u32) -> SegmentModel {
        SegmentModel::fresh(
            KcpHeader {
                conv: self.conv,
                cmd,
                frg: 0,
                wnd: self.advertised(),
                ts,
                sn,
                una: self.rcv_nxt,
                len: 0,
            },
            Seq::empty(),
        )
    }

    /// The acknowledgements that are owed.
    pub open spec fn ack_segments(self) -> Seq<SegmentModel> {
        Seq::new(
            self.ack_list.len(),
            |i: int|
                self.control(constants::IKCP_CMD_ACK, self.ack_list[i].0, self.ack_list[i].1),
        )
    }

    /// The window probes that are due.
    pub open spec fn probe_segments(self, now: u32) -> Seq<SegmentModel> {
        let probe = probing(self.probe, self.wnd.rmt, now);
        let ask = if probe.ask_send {
            seq![self.control(constants::IKCP_CMD_WASK, 0, now)]
        } else {
            Seq::empty()
        };
        if probe.ask_tell {
            ask.push(self.control(constants::IKCP_CMD_WINS, 0, now))
        } else {
            ask
        }
    }

    /// What a flush sends before any data.
    pub open spec fn control_segments(self, now: u32) -> Seq<SegmentModel> {
        self.ack_segments() + self.probe_segments(now)
    }

    /// Acknowledgements and probes have been dealt with, and waiting segments have been given
    /// numbers.
    pub open spec fn prepared(self, now: u32) -> Self {
        let m = EngineModel {
            ack_list: Seq::empty(),
            probe: ProbeState {
                ask_send: false,
                ask_tell: false,
                ..probing(self.probe, self.wnd.rmt, now)
            },
            ..self
        };
        m.moved(m.movable(), now)
    }

    /// What a flush at the time `now` goes by.
    pub open spec fn pass(self, now: u32) -> Pass {
        Pass {
            now,
            rto: self.rtt.rto,
            nodelay: self.config.nodelay,
            wnd: self.advertised(),
            una: self.rcv_nxt,
            dead_link: self.dead_link(),
        }
    }

    /// All segments that a flush sends, in order.
    pub open spec fn outgoing(self, now: u32) -> Seq<SegmentModel> {
        let p = self.prepared(now);
        let pass = self.pass(now);
        self.control_segments(now) + pass.transmitted(
            p.snd_buf.take(pass.reach(p.snd_buf) as int),
        )
    }

    /// A flush gives the link up: it sends a segment for the last time that is allowed.
    pub open spec fn gives_up(self, now: u32) -> bool {
        self.pass(now).lost(self.prepared(now).snd_buf)
    }

    /// Datagrams have been sent, with so many segments sent again for either reason.
    pub open spec fn recorded(self, timeouts: nat, fasts: nat, packets: Seq<Seq<u8>>) -> Self {
        EngineModel {
            xmit_count: engine::input::capped(self.xmit_count + timeouts),
            output: self.output + packets,
            stats: KcpStats {
                packets_sent: ((self.stats.packets_sent + packets.len())
                    % 0x1_0000_0000_0000_0000) as u64,
                retransmissions: ((self.stats.retransmissions + timeouts)
                    % 0x1_0000_0000_0000_0000) as u64,
                fast_retransmissions: ((self.stats.fast_retransmissions + fasts)
                    % 0x1_0000_0000_0000_0000) as u64,
                ..self.stats
            },
            ..self
        }
    }

    /// Everything has been sent that a flush sends.
    pub open spec fn emitted(self, now: u32) -> Self {
        let p = self.prepared(now);
        let pass = self.pass(now);
        EngineModel { snd_buf: pass.swept(p.snd_buf), ..p }.recorded(
            pass.count(p.snd_buf, Attempt::Timeout),
            pass.count(p.snd_buf, Attempt::Fast),
            engine::packing::datagrams(self.outgoing(now), self.config.mtu as int),
        )
    }

    /// The congestion window has been adjusted, and the statistics say so.
    pub open spec fn settled(self, change: bool, lost: bool, threshold: u32) -> Self {
        let wnd = adjusted(self.wnd, self.inflight(), threshold, self.mss(), change, lost);
        EngineModel {
            wnd,
            stats: KcpStats {
                snd_wnd: wnd.snd,
                rcv_wnd: wnd.rcv,
                cwnd: wnd.cwnd,
                snd_buf_size: self.snd_buf.len() as u32,
                rcv_buf_size: self.rcv_buf.len() as u32,
                ..self.stats
            },
            ..self
        }
    }

    /// A flush at the time `now`. One that gives the link up leaves the windows alone.
    pub open spec fn flushed(self, now: u32) -> Self {
        let p = self.prepared(now);
        let pass = self.pass(now);
        if self.gives_up(now) {
            self.emitted(now)
        } else {
            self.emitted(now).settled(
                pass.count(p.snd_buf, Attempt::Fast) > 0,
                pass.count(p.snd_buf, Attempt::Timeout) > 0,
                pass.threshold(),
            )
        }
    }

    /// A periodic update at the time `now` is due for a flush.
    pub open spec fn update_due(self, now: u32) -> bool {
        let last = if now < self.last_update {
            now
        } else {
            self.last_update
        };
        now - last >= self.config.nodelay.interval
    }

    /// A periodic update at the time `now`: a flush once per interval.
    pub open spec fn updated(self, now: u32) -> Self {
        let last = if now < self.last_update {
            now
        } else {
            self.last_update
        };
        if self.update_due(now) {
            EngineModel { last_update: now, ..self }.flushed(now)
        } else {
            EngineModel { last_update: last, ..self }
        }
    }
}

/// Segments in order are fewer than the numbers they lie among.
pub proof fn lemma_in_order_len(segs: Seq<SegmentModel>, base: u32, limit: int)
    requires
        engine::in_order(segs, base, limit),
        limit >= 0,
    ensures
        segs.len() <= limit,
{
    if segs.len() > 0 {
        lemma_in_order_spread(segs, base, limit, segs.len() - 1);
    }
}

/// A segment lies at least as far away as its place.
proof fn lemma_in_order_spread(segs: Seq<SegmentModel>, base: u32, limit: int, i: int)
    requires
        engine::in_order(segs, base, limit),
        0 <= i < segs.len(),
    ensures
        sequence::distance(base, segs[i].header.sn) >= i,
    decreases i,
{
    if i > 0 {
        lemma_in_order_spread(segs, base, limit, i - 1);
        assert(sequence::distance(base, segs[i - 1].header.sn) < sequence::distance(
            base,
            segs[i].header.sn,
        ));
    }
}

/// Looking at the segments in flight keeps an engine well-formed.
pub proof fn lemma_swept_wf(m: EngineModel, pass: Pass)
    requires
        m.wf(),
    ensures
        (EngineModel { snd_buf: pass.swept(m.snd_buf), ..m }).wf(),
{
    let after = EngineModel { snd_buf: pass.swept(m.snd_buf), ..m };
    assert forall|i: int| 0 <= i < after.snd_buf.len() implies (
    #[trigger] after.snd_buf[i]).header.sn == m.snd_buf[i].header.sn
        && after.snd_buf[i].header.len == m.snd_buf[i].header.len && after.snd_buf[i].data
        == m.snd_buf[i].data by {}
    assert(engine::sendable(after.snd_buf, after.mss())) by {
        assert forall|i: int| 0 <= i < after.snd_buf.len() implies (
        #[trigger] after.snd_buf[i]).len_matches() && after.snd_buf[i].data.len() <= after.mss() by {
            assert(m.snd_buf[i].len_matches());
        }
    }
}

/// Preparing a flush keeps an engine well-formed.
pub proof fn lemma_prepared_wf(m: EngineModel, now: u32)
    requires
        m.wf(),
    ensures
        m.prepared(now).wf(),
{
    let q = EngineModel {
        ack_list: Seq::empty(),
        probe: ProbeState {
            ask_send: false,
            ask_tell: false,
            ..probing(m.probe, m.wnd.rmt, now)
        },
        ..m
    };
    assert(q.wf());
    engine::sending::lemma_moved_wf(q, q.movable(), now);
}

/// A flush keeps an engine well-formed.
pub proof fn lemma_flushed_wf(m: EngineModel, now: u32)
    requires
        m.wf(),
    ensures
        m.flushed(now).wf(),
        m.emitted(now).wf(),
{
    lemma_prepared_wf(m, now);
    lemma_swept_wf(m.prepared(now), m.pass(now));
}

/// How the steps of a flush go on with one more segment.
proof fn lemma_pass_step(pass: Pass, segs: Seq<SegmentModel>, k: int)
    requires
        0 <= k < segs.len(),
    ensures
        segs.take(k + 1).drop_last() == segs.take(k),
        segs.take(k + 1).last() == segs[k],
        pass.lost(segs.take(k + 1)) == (pass.lost(segs.take(k)) || pass.fatal(segs[k])),
        pass.swept(segs).take(k + 1) == pass.swept(segs).take(k).push(pass.tried(segs[k])),
        pass.count(segs.take(k + 1), Attempt::Timeout) == pass.count(
            segs.take(k),
            Attempt::Timeout,
        ) + (if pass.decide(segs[k]) is Timeout {
            1nat
        } else {
            0
        }),
        pass.count(segs.take(k + 1), Attempt::Fast) == pass.count(segs.take(k), Attempt::Fast) + (
        if pass.decide(segs[k]) is Fast {
            1nat
        } else {
            0
        }),
        pass.reach(segs.take(k + 1)) == (if pass.lost(segs.take(k)) {
            pass.reach(segs.take(k)) as int
        } else {
            k + 1
        }),
{
    let a = segs.take(k);
    let b = segs.take(k + 1);
    assert(b.drop_last() =~= a);
    assert(pass.swept(segs).take(k + 1) =~= pass.swept(segs).take(k).push(pass.tried(segs[k])));
    if pass.lost(a) {
        let i = choose|i: int| 0 <= i < a.len() && pass.fatal(#[trigger] a[i]);
        assert(b[i] == a[i]);
    }
    if pass.fatal(segs[k]) {
        assert(b[k] == segs[k]);
    }
    if pass.lost(b) {
        let i = choose|i: int| 0 <= i < b.len() && pass.fatal(#[trigger] b[i]);
        if i < k {
            assert(a[i] == b[i]);
        }
    }
}

/// The reach is no larger than the number of segments.
pub proof fn lemma_reach(pass: Pass, segs: Seq<SegmentModel>)
    ensures
        pass.reach(segs) <= segs.len(),
        !pass.lost(segs) ==> pass.reach(segs) == segs.len(),
    decreases segs.len(),
{
    if segs.len() > 0 {
        let front = segs.drop_last();
        lemma_reach(pass, front);
        if pass.lost(front) {
            let i = choose|i: int| 0 <= i < front.len() && pass.fatal(#[trigger] front[i]);
            assert(segs[i] == front[i]);
        }
    }
}

/// Packing one more segment.
proof fn lemma_packed_push(segs: Seq<SegmentModel>, seg: SegmentModel, mtu: int)
    ensures
        engine::packing::packed(segs.push(seg), mtu) == engine::packing::packed(segs, mtu).with(
            seg.wire(),
            mtu,
        ),
{
    assert(segs.push(seg).drop_last() =~= segs);
}

/// What came of looking at the segments in flight.
struct Sweep {
    timeouts: u32,
    fasts: u32,
    lost: bool,
}

impl KcpEngine {
    /// A segment without data.
    pub(super) fn control_segment(&self, cmd: u8, sn: u32, ts: u32) -> (r: KcpSegment)
        requires
            self@.receive_wf(),
        ensures
            r@ == self@.control(cmd, sn, ts),
    {
        let mut segment = KcpSegment::new_at(self.conv, cmd, ts, Bytes::new());
        segment.header.sn = sn;
        segment.header.wnd = (self.wnd_unused() % 0x1_0000) as u16;
        segment.header.una = self.rcv_nxt;
        segment
    }

    /// Packs the acknowledgements that are owed.
    fn flush_acks(&mut self, packer: &mut Packer)
        requires
            old(self).wf(),
            old(packer).wf(),
            old(packer).limit() == old(self)@.config.mtu,
            old(packer)@ == engine::packing::packed(Seq::empty(), old(packer).limit()),
        ensures
            final(self)@ == (EngineModel { ack_list: Seq::empty(), ..old(self)@ }),
            final(packer).wf(),
            final(packer).limit() == old(packer).limit(),
            final(packer)@ == engine::packing::packed(
                old(self)@.ack_segments(),
                old(packer).limit(),
            ),
    {
        let ghost all = self@.ack_segments();
        let mut i: usize = 0;
        assert(all.take(0) =~= Seq::empty());
        while i < self.ack_list.len()
            invariant
                i <= self.ack_list@.len(),
                self.wf(),
                self@ == old(self)@,
                all == self@.ack_segments(),
                packer.wf(),
                packer.limit() == old(packer).limit(),
                packer.limit() == self@.config.mtu,
                packer@ == engine::packing::packed(all.take(i as int), packer.limit()),
            decreases self.ack_list@.len() - i,
        {
            let (sn, ts) = self.ack_list[i];
            let segment = self.control_segment(constants::IKCP_CMD_ACK, sn, ts);
            proof {
                assert(segment@ == all[i as int]);
                lemma_packed_push(all.take(i as int), all[i as int], packer.limit());
                assert(all.take(i + 1) =~= all.take(i as int).push(all[i as int]));
            }
            packer.put(&segment);
            i = i + 1;
        }
        assert(all.take(i as int) =~= all);
        self.ack_list.clear();
    }

    /// Brings the probe state up to date and packs the probes that are due.
    fn handle_window_probe(&mut self, packer: &mut Packer, current: u32, done: Ghost<Seq<SegmentModel>>)
        requires
            old(self).wf(),
            old(packer).wf(),
            old(packer).limit() == old(self)@.config.mtu,
            old(packer)@ == engine::packing::packed(done@, old(packer).limit()),
        ensures
            final(self)@ == (EngineModel {
                probe: ProbeState {
                    ask_send: false,
                    ask_tell: false,
                    ..probing(old(self)@.probe, old(self)@.wnd.rmt, current)
                },
                ..old(self)@
            }),
            final(packer).wf(),
            final(packer).limit() == old(packer).limit(),
            final(packer)@ == engine::packing::packed(
                done@ + old(self)@.probe_segments(current),
                old(packer).limit(),
            ),
    {
        let ghost m = self@;
        if self.wnd.rmt == 0 {
            if self.probe.wait == 0 {
                self.probe.wait = constants::IKCP_PROBE_INIT;
                self.probe.ts = advance(current, self.probe.wait);
            } else if time_diff(current, self.probe.ts) >= 0 {
                let base: u64 = if self.probe.wait < constants::IKCP_PROBE_INIT {
                    constants::IKCP_PROBE_INIT as u64
                } else {
                    self.probe.wait as u64
                };
                let longer: u64 = base + base / 2;
                self.probe.wait = if longer > constants::IKCP_PROBE_LIMIT as u64 {
                    constants::IKCP_PROBE_LIMIT
                } else {
                    longer as u32
                };
                self.probe.ts = advance(current, self.probe.wait);
                self.probe.ask_send = true;
            }
        } else {
            self.probe.ts = 0;
            self.probe.wait = 0;
        }
        assert(self.probe == probing(m.probe, m.wnd.rmt, current));
        let ghost mut sent = done@;
        if self.probe.ask_send {
            let segment = self.control_segment(constants::IKCP_CMD_WASK, 0, current);
            proof {
                lemma_packed_push(sent, segment@, packer.limit());
                sent = sent.push(segment@);
            }
            packer.put(&segment);
        }
        if self.probe.ask_tell {
            let segment = self.control_segment(constants::IKCP_CMD_WINS, 0, current);
            proof {
                lemma_packed_push(sent, segment@, packer.limit());
                sent = sent.push(segment@);
            }
            packer.put(&segment);
        }
        assert(sent =~= done@ + m.probe_segments(current));
        self.probe.ask_send = false;
        self.probe.ask_tell = false;
    }

    /// Looks at the segments in flight, and packs those that are due.
    fn sweep(&mut self, packer: &mut Packer, pass: &Pass, done: Ghost<Seq<SegmentModel>>) -> (r:
        Sweep)
        requires
            old(self).wf(),
            pass.rto <= constants::IKCP_RTO_MAX,
            old(packer).wf(),
            old(packer).limit() == old(self)@.config.mtu,
            old(packer)@ == engine::packing::packed(done@, old(packer).limit()),
        ensures
            final(self)@ == (EngineModel {
                snd_buf: pass.swept(old(self)@.snd_buf),
                ..old(self)@
            }),
            final(packer).wf(),
            final(packer).limit() == old(packer).limit(),
            r.lost == pass.lost(old(self)@.snd_buf),
            r.timeouts == pass.count(old(self)@.snd_buf, Attempt::Timeout),
            r.fasts == pass.count(old(self)@.snd_buf, Attempt::Fast),
            final(packer)@ == engine::packing::packed(
                done@ + pass.transmitted(
                    old(self)@.snd_buf.take(pass.reach(old(self)@.snd_buf) as int),
                ),
                old(packer).limit(),
            ),
    {
        let ghost m = self@;
        let ghost buf = m.snd_buf;
        let ghost mut k: int = 0;
        let mut timeouts: u32 = 0;
        let mut fasts: u32 = 0;
        let mut lost = false;
        let mut after: VecDeque<KcpSegment> = VecDeque::new();
        proof {
            assert(buf.skip(0) =~= buf);
            assert(engine::models(after@) =~= pass.swept(buf).take(0));
            assert(buf.take(0).take(0) =~= Seq::empty());
            assert(done@ + pass.transmitted(buf.take(0).take(0)) =~= done@);
            lemma_in_order_len(buf, m.snd_una, m.inflight());
        }
        while self.snd_buf.len() > 0
            invariant
                m.wf(),
                buf == m.snd_buf,
                buf.len() <= 0xffff,
                pass.rto <= constants::IKCP_RTO_MAX,
                0 <= k <= buf.len(),
                self@ == (EngineModel { snd_buf: buf.skip(k), ..m }),
                packer.wf(),
                packer.limit() == old(packer).limit(),
                packer.limit() == m.config.mtu,
                engine::models(after@) == pass.swept(buf).take(k),
                timeouts == pass.count(buf.take(k), Attempt::Timeout),
                fasts == pass.count(buf.take(k), Attempt::Fast),
                timeouts <= k,
                fasts <= k,
                lost == pass.lost(buf.take(k)),
                packer@ == engine::packing::packed(
                    done@ + pass.transmitted(
                        buf.take(k).take(pass.reach(buf.take(k)) as int),
                    ),
                    packer.limit(),
                ),
            decreases self.snd_buf@.len(),
        {
            proof {
                engine::lemma_models_front(self.snd_buf@);
                assert(buf.skip(k).skip(1) =~= buf.skip(k + 1));
                assert(buf.skip(k)[0] == buf[k]);
                lemma_pass_step(*pass, buf, k);
                lemma_reach(*pass, buf.take(k));
            }
            let mut first = self.snd_buf.pop_front();
            if let Some(first) = first {
                let mut segment = first;
                assert(segment@ == buf[k]);
                let what = pass.attempt(&mut segment);
                proof {
                    assert(buf[k].len_matches());
                    let r = pass.reach(buf.take(k)) as int;
                    if lost {
                        assert(buf.take(k + 1).take(r) =~= buf.take(k).take(r));
                    } else {
                        assert(buf.take(k).take(k) =~= buf.take(k));
                        assert(buf.take(k + 1).take(k + 1) =~= buf.take(k + 1));
                        let t = pass.transmitted(buf.take(k));
                        if !(what is Quiet) {
                            lemma_packed_push(done@ + t, segment@, packer.limit());
                            assert((done@ + t).push(segment@) =~= done@ + t.push(segment@));
                        }
                    }
                }
                match what {
                    Attempt::Quiet => {},
                    Attempt::First => {},
                    Attempt::Timeout => {
                        timeouts = timeouts + 1;
                    },
                    Attempt::Fast => {
                        fasts = fasts + 1;
                    },
                }
                if !matches!(what, Attempt::Quiet) {
                    if !lost {
                        packer.put(&segment);
                    }
                    if segment.xmit > pass.dead_link {
                        lost = true;
                    }
                }
                proof {
                    engine::lemma_models_push(after@, segment);
                    k = k + 1;
                }
                after.push_back(segment);
            }
        }
        proof {
            assert(self@.snd_buf.len() == buf.len() - k);
            assert(buf.take(k) =~= buf);
            assert(pass.swept(buf).take(k) =~= pass.swept(buf));
        }
        self.snd_buf = after;
        Sweep { timeouts, fasts, lost }
    }

    /// Adjusts the congestion window after a flush.
    fn settle(&mut self, change: bool, lost: bool, threshold: u32)
        requires
            old(self).wf(),
        ensures
            final(self)@ == old(self)@.settled(change, lost, threshold),
            final(self).wf(),
    {
        let ghost m = self@;
        let mss: u32 = self.mss();
        proof {
            lemma_in_order_len(m.snd_buf, m.snd_una, m.inflight());
            lemma_in_order_len(m.rcv_buf, m.rcv_nxt, sequence::half_circle());
        }
        if change {
            let inflight: u32 = self.snd_nxt.wrapping_sub(self.snd_una);
            self.wnd.ssthresh = inflight / 2;
            if self.wnd.ssthresh < constants::IKCP_THRESH_MIN {
                self.wnd.ssthresh = constants::IKCP_THRESH_MIN;
            }
            self.wnd.cwnd = self.wnd.ssthresh.saturating_add(threshold);
            assert(self.wnd.cwnd * mss <= 0xffff_ffff * 0xffff_ffff) by (nonlinear_arith)
                requires
                    self.wnd.cwnd <= 0xffff_ffff,
                    mss <= 0xffff_ffff,
            ;
            self.wnd.incr = cap(self.wnd.cwnd as u64 * mss as u64);
        }
        if lost {
            let half: u32 = self.wnd.cwnd / 2;
            self.wnd.ssthresh = if half < constants::IKCP_THRESH_MIN {
                constants::IKCP_THRESH_MIN
            } else {
                half
            };
            self.wnd.cwnd = 1;
            self.wnd.incr = mss;
        }
        if self.wnd.cwnd < 1 {
            self.wnd.cwnd = 1;
            self.wnd.incr = mss;
        }
        self.stats.snd_wnd = self.wnd.snd;
        self.stats.rcv_wnd = self.wnd.rcv;
        self.stats.cwnd = self.wnd.cwnd;
        self.stats.snd_buf_size = self.snd_buf.len() as u32;
        self.stats.rcv_buf_size = self.rcv_buf.len() as u32;
    }

    /// Puts datagrams at the end of those that are ready to leave.
    fn emit(&mut self, packets: Vec<Bytes>)
        ensures
            final(self)@ == (EngineModel {
                output: old(self)@.output + engine::contents(packets@),
                stats: KcpStats {
                    packets_sent: ((old(self)@.stats.packets_sent + packets@.len())
                        % 0x1_0000_0000_0000_0000) as u64,
                    ..old(self)@.stats
                },
                ..old(self)@
            }),
    {
        let mut packets = packets;
        self.stats.packets_sent = self.stats.packets_sent.wrapping_add(packets.len() as u64);
        let ghost before = self.output@;
        let ghost more = packets@;
        self.output.append(&mut packets);
        assert(engine::contents(self.output@) =~= engine::contents(before) + engine::contents(
            more,
        ));
    }

    /// Packs acknowledgements and probes, and gives numbers to waiting segments.
    fn prepare(&mut self, packer: &mut Packer, current: u32)
        requires
            old(self).wf(),
            old(packer).wf(),
            old(packer).limit() == old(self)@.config.mtu,
            old(packer)@ == engine::packing::packed(Seq::empty(), old(packer).limit()),
        ensures
            final(self)@ == old(self)@.prepared(current),
            final(self).wf(),
            final(packer).wf(),
            final(packer).limit() == old(packer).limit(),
            final(packer)@ == engine::packing::packed(
                old(self)@.control_segments(current),
                old(packer).limit(),
            ),
    {
        let ghost m = self@;
        self.flush_acks(packer);
        let ghost a = self@;
        assert(a.wf());
        assert(a.probe_segments(current) =~= m.probe_segments(current)) by {
            assert(a.control(constants::IKCP_CMD_WASK, 0, current) == m.control(
                constants::IKCP_CMD_WASK,
                0,
                current,
            ));
            assert(a.control(constants::IKCP_CMD_WINS, 0, current) == m.control(
                constants::IKCP_CMD_WINS,
                0,
                current,
            ));
        }
        self.handle_window_probe(packer, current, Ghost(m.ack_segments()));
        assert(self@.wf());
        self.move_to_send_buf(current);
    }

    /// What a flush goes by.
    fn current_pass(&self, current: u32) -> (r: Pass)
        requires
            self.wf(),
        ensures
            r == self@.pass(current),
            r.rto <= constants::IKCP_RTO_MAX,
    {
        Pass {
            now: current,
            rto: self.rtt.rto,
            nodelay: self.config.nodelay,
            wnd: (self.wnd_unused() % 0x1_0000) as u16,
            una: self.rcv_nxt,
            dead_link: self.dead_link(),
        }
    }

    /// Puts datagrams at the end of those that are ready to leave, and counts what was sent.
    fn record(&mut self, sweep: &Sweep, packets: Vec<Bytes>)
        ensures
            final(self)@ == old(self)@.recorded(
                sweep.timeouts as nat,
                sweep.fasts as nat,
                engine::contents(packets@),
            ),
    {
        self.xmit_count = self.xmit_count.saturating_add(sweep.timeouts);
        self.stats.retransmissions = self.stats.retransmissions.wrapping_add(sweep.timeouts as u64);
        self.stats.fast_retransmissions = self.stats.fast_retransmissions.wrapping_add(
            sweep.fasts as u64,
        );
        self.emit(packets);
    }

    /// Sends everything that a flush sends.
    fn transmit(&mut self, current: u32) -> (r: Sweep)
        requires
            old(self).wf(),
        ensures
            final(self)@ == old(self)@.emitted(current),
            final(self).wf(),
            r.lost == old(self)@.gives_up(current),
            r.timeouts == old(self)@.pass(current).count(
                old(self)@.prepared(current).snd_buf,
                Attempt::Timeout,
            ),
            r.fasts == old(self)@.pass(current).count(
                old(self)@.prepared(current).snd_buf,
                Attempt::Fast,
            ),
    {
        proof {
            lemma_flushed_wf(self@, current);
        }
        let mut packer = Packer::new(self.config.mtu);
        let pass = self.current_pass(current);
        let ghost control = self@.control_segments(current);
        self.prepare(&mut packer, current);
        let sweep = self.sweep(&mut packer, &pass, Ghost(control));
        let packets = packer.finish();
        self.record(&sweep, packets);
        sweep
    }

    /// Flush pending data and acknowledgements at the time `current`.
    pub fn flush_at(&mut self, current: u32) -> (r: KcpCoreResult<()>)
        requires
            old(self).wf(),
        ensures
            final(self).wf(),
            final(self)@ == old(self)@.flushed(current),
            old(self)@.gives_up(current) ==> r is Err && r->Err_0 is ConnectionLost,
            !old(self)@.gives_up(current) ==> r is Ok,
    {
        let sweep = self.transmit(current);
        if sweep.lost {
            return Err(KcpCoreError::connection_lost());
        }
        let threshold: u32 = if self.config.nodelay.resend > 0 {
            self.config.nodelay.resend
        } else {
            u32::MAX
        };
        self.settle(sweep.fasts > 0, sweep.timeouts > 0, threshold);
        Ok(())
    }

    /// Flush pending data and acknowledgements.
    pub fn flush(&mut self) -> (r: KcpCoreResult<()>)
        requires
            old(self).wf(),
        ensures
            final(self).wf(),
            exists|now: u32|
                {
                    &&& final(self)@ == #[trigger] old(self)@.flushed(now)
                    &&& (r is Err <==> old(self)@.gives_up(now))
                },
            r is Err ==> r->Err_0 is ConnectionLost,
    {
        let now: u32 = current_timestamp();
        self.flush_at(now)
    }

    /// Update the state at the time `current` (called periodically).
    pub fn update_at(&mut self, current: u32) -> (r: KcpCoreResult<()>)
        requires
            old(self).wf(),
        ensures
            final(self).wf(),
            final(self)@ == old(self)@.updated(current),
            r is Err <==> old(self)@.update_due(current) && (EngineModel {
                last_update: current,
                ..old(self)@
            }).gives_up(current),
            r is Err ==> r->Err_0 is ConnectionLost,
    {
        let ghost m = self@;
        if current < self.last_update {
            self.last_update = current;
        }
        let diff: u32 = current - self.last_update;
        if diff >= self.config.nodelay.interval {
            self.last_update = current;
            self.flush_at(current)
        } else {
            Ok(())
        }
    }

    /// Update the state (called periodically).
    pub fn update(&mut self) -> (r: KcpCoreResult<()>)
        requires
            old(self).wf(),
        ensures
            final(self).wf(),
            exists|now: u32|
                {
                    &&& final(self)@ == #[trigger] old(self)@.updated(now)
                    &&& (r is Err <==> old(self)@.update_due(now) && (EngineModel {
                        last_update: now,
                        ..old(self)@
                    }).gives_up(now))
                },
            r is Err ==> r->Err_0 is ConnectionLost,
    {
        let now: u32 = current_timestamp();
        self.update_at(now)
    }
}

} // verus!
