//! Incoming packets: acknowledgements, round-trip times, data and window probes.
use super::{EngineModel, KcpEngine, ProbeState, RttState, WindowState};
use crate::buffers;
use crate::clock::current_timestamp;
use crate::engine;
use crate::error::{KcpCoreError, KcpCoreResult};
use crate::protocol;
use crate::protocol::constants;
use crate::protocol::{KcpHeader, KcpSegment, KcpStats, SegmentModel};
use crate::sequence;
use crate::sequence::{seq_after, seq_before};
use bytes::Bytes;
use std::collections::VecDeque;
use vstd::prelude::*;

verus! {

/// The segments that a packet holds, one after the other. Whatever is left over at the end
/// and too short for what it announces is not a segment.
pub open spec fn parse_packet(s: Seq<u8>) -> Seq<SegmentModel>
    decreases s.len(),
{
    if s.len() < 24 || protocol::header_at_front(s).len > s.len() - 24 {
        Seq::empty()
    } else {
        let h = protocol::header_at_front(s);
        let end = 24 + h.len as int;
        seq![SegmentModel::fresh(h, s.subrange(24, end))] + parse_packet(s.skip(end))
    }
}

/// How many segments at the front come before `una`.
pub open spec fn lead(buf: Seq<SegmentModel>, una: u32) -> nat
    decreases buf.len(),
{
    if buf.len() == 0 || !sequence::before(buf[0].header.sn, una) {
        0
    } else {
        1 + lead(buf.skip(1), una)
    }
}

/// The segments with any other number than `sn`.
pub open spec fn without(buf: Seq<SegmentModel>, sn: u32) -> Seq<SegmentModel>
    decreases buf.len(),
{
    if buf.len() == 0 {
        Seq::empty()
    } else if buf.last().header.sn == sn {
        without(buf.drop_last(), sn)
    } else {
        without(buf.drop_last(), sn).push(buf.last())
    }
}

/// The smaller of a number and the largest that 32 bits hold.
pub open spec fn capped(x: int) -> u32 {
    if x <= u32::MAX {
        x as u32
    } else {
        u32::MAX
    }
}

/// A segment that a later one has overtaken.
pub open spec fn overtaken(seg: SegmentModel) -> SegmentModel {
    SegmentModel { fastack: capped(seg.fastack + 1), ..seg }
}

/// The larger of two numbers.
pub open spec fn larger(a: int, b: int) -> int {
    if a < b {
        b
    } else {
        a
    }
}

/// The distance between two numbers.
pub open spec fn apart(a: int, b: int) -> int {
    if a < b {
        b - a
    } else {
        a - b
    }
}

/// The round-trip state after a sample: the average moves by an eighth and the variance by a
/// quarter towards the sample, and the timeout is the average plus four times the variance,
/// within its limits.
pub open spec fn measured(rtt: RttState, sample: u32, interval: u32) -> RttState {
    let s = sample as int;
    let (avg, var) = if rtt.avg == 0 {
        (s, s / 2)
    } else {
        (
            larger(1, (7 * rtt.avg + s) / 8),
            (3 * rtt.var + apart(sequence::signed(s), sequence::signed(rtt.avg as int))) / 4,
        )
    };
    let rto = avg + 4 * larger(var, interval as int);
    RttState {
        avg: avg as u32,
        var: var as u32,
        rto: if rto < rtt.min_rto {
            rtt.min_rto
        } else if rto > constants::IKCP_RTO_MAX {
            constants::IKCP_RTO_MAX
        } else {
            rto as u32
        },
        min_rto: rtt.min_rto,
    }
}

/// The congestion window after an acknowledgement: it grows by one in slow start, and by
/// about one per round trip after that, up to the peer's window.
pub open spec fn grown(wnd: WindowState, mss: int) -> WindowState {
    let (cwnd, incr) = if wnd.cwnd < wnd.ssthresh {
        (wnd.cwnd + 1, capped(wnd.incr + mss))
    } else {
        let base = larger(wnd.incr as int, mss);
        let incr = capped(base + mss * mss / base + mss / 16);
        (
            if (wnd.cwnd + 1) * mss <= incr {
                (incr + mss - 1) / mss
            } else {
                wnd.cwnd as int
            },
            incr,
        )
    };
    if cwnd > wnd.rmt {
        WindowState { cwnd: wnd.rmt, incr: capped(wnd.rmt * mss), ..wnd }
    } else {
        WindowState { cwnd: cwnd as u32, incr, ..wnd }
    }
}

impl EngineModel {
    /// The first unacknowledged number is that of the first segment in flight.
    pub open spec fn shrunk(self) -> Self {
        EngineModel {
            snd_una: if self.snd_buf.len() == 0 {
                self.snd_nxt
            } else {
                self.snd_buf[0].header.sn
            },
            ..self
        }
    }

    /// The peer has everything before `una`.
    pub open spec fn acked_before(self, una: u32) -> Self {
        EngineModel { snd_buf: self.snd_buf.skip(lead(self.snd_buf, una) as int), ..self }.shrunk()
    }

    /// `sn` is a number that is in flight.
    pub open spec fn outstanding(self, sn: u32) -> bool {
        !sequence::before(sn, self.snd_una) && sequence::before(sn, self.snd_nxt)
    }

    /// The peer has the segment `sn`.
    pub open spec fn acked(self, sn: u32) -> Self {
        if self.outstanding(sn) {
            EngineModel { snd_buf: without(self.snd_buf, sn), ..self }.shrunk()
        } else {
            self.shrunk()
        }
    }

    /// The segments before `sn` have been overtaken.
    pub open spec fn fast_acked(self, sn: u32) -> Self {
        if self.outstanding(sn) {
            EngineModel {
                snd_buf: Seq::new(
                    self.snd_buf.len(),
                    |i: int|
                        if sequence::before(self.snd_buf[i].header.sn, sn) {
                            overtaken(self.snd_buf[i])
                        } else {
                            self.snd_buf[i]
                        },
                ),
                ..self
            }
        } else {
            self
        }
    }

    /// A round trip has been timed.
    pub open spec fn timed(self, sample: u32) -> Self {
        let rtt = measured(self.rtt, sample, self.config.nodelay.interval);
        EngineModel {
            rtt,
            stats: KcpStats { rtt: rtt.avg, rtt_var: rtt.var, rto: rtt.rto, ..self.stats },
            ..self
        }
    }

    /// What every segment of the peer says: its window, and what it has received.
    pub open spec fn told(self, h: KcpHeader) -> Self {
        EngineModel { wnd: WindowState { rmt: h.wnd as u32, ..self.wnd }, ..self }.acked_before(
            h.una,
        )
    }

    /// A data segment has been taken in: within the window it is acknowledged, and kept unless
    /// it was received before.
    pub open spec fn given_data(self, seg: SegmentModel) -> Self {
        let sn = seg.header.sn;
        let owed = EngineModel { ack_list: self.ack_list.push((sn, seg.header.ts)), ..self };
        if !sequence::before(sn, sequence::advanced(self.rcv_nxt, self.wnd.rcv as int)) {
            self
        } else if sequence::before(sn, self.rcv_nxt) {
            owed
        } else {
            owed.stored(seg)
        }
    }

    /// A segment of the peer has been taken in.
    pub open spec fn absorbed(self, seg: SegmentModel, now: u32) -> Self {
        let m = self.told(seg.header);
        let sn = seg.header.sn;
        let ts = seg.header.ts;
        if seg.header.cmd == constants::IKCP_CMD_ACK {
            if now >= ts {
                m.timed((now - ts) as u32).acked(sn)
            } else {
                m.acked(sn)
            }
        } else if seg.header.cmd == constants::IKCP_CMD_PUSH {
            m.given_data(seg)
        } else if seg.header.cmd == constants::IKCP_CMD_WASK {
            EngineModel { probe: ProbeState { ask_tell: true, ..m.probe }, ..m }
        } else {
            m
        }
    }

    /// The congestion window has been adjusted after a packet.
    pub open spec fn window_grown(self) -> Self {
        if sequence::after(self.snd_una, self.wnd.cwnd) && self.wnd.cwnd < self.wnd.rmt {
            EngineModel { wnd: grown(self.wnd, self.mss()), ..self }
        } else {
            self
        }
    }

    /// A packet has been taken in whole; `newest` is the latest number it acknowledged.
    pub open spec fn packet_done(self, newest: Option<u32>, now: u32) -> Self {
        let m = (match newest {
            Some(sn) => self.fast_acked(sn),
            None => self,
        }).window_grown();
        EngineModel {
            stats: KcpStats {
                packets_received: ((m.stats.packets_received + 1) % 0x1_0000_0000_0000_0000) as u64,
                ..m.stats
            },
            last_recv: now,
            ..m
        }
    }

    /// A packet has come in at the time `now`.
    pub open spec fn fed(self, packet: Seq<u8>, now: u32) -> Self {
        let d = digest(self, parse_packet(packet), None, now);
        if packet.len() < 24 {
            self
        } else if d.foreign {
            d.engine
        } else {
            d.engine.packet_done(d.newest, now)
        }
    }
}

/// The latest acknowledged number, when a segment has been looked at.
pub open spec fn newest_ack(newest: Option<u32>, h: KcpHeader) -> Option<u32> {
    if h.cmd != constants::IKCP_CMD_ACK {
        newest
    } else {
        match newest {
            None => Some(h.sn),
            Some(sn) => if sequence::after(h.sn, sn) {
                Some(h.sn)
            } else {
                newest
            },
        }
    }
}

/// What taking in the segments of a packet leads to.
#[verifier::ext_equal]
pub struct Digest {
    /// The engine afterwards
    pub engine: EngineModel,
    /// The latest number that was acknowledged
    pub newest: Option<u32>,
    /// A segment of another conversation was met, and nothing after it was looked at
    pub foreign: bool,
}

/// Takes in the segments of a packet, in order, up to the first of another conversation.
pub open spec fn digest(
    m: EngineModel,
    segs: Seq<SegmentModel>,
    newest: Option<u32>,
    now: u32,
) -> Digest
    decreases segs.len(),
{
    if segs.len() == 0 {
        Digest { engine: m, newest, foreign: false }
    } else if segs[0].header.conv != m.conv {
        Digest { engine: m, newest, foreign: true }
    } else {
        digest(
            m.absorbed(segs[0], now),
            segs.skip(1),
            newest_ack(newest, segs[0].header),
            now,
        )
    }
}

/// There are no more leading segments than segments.
pub proof fn lemma_lead(buf: Seq<SegmentModel>, una: u32)
    ensures
        lead(buf, una) <= buf.len(),
    decreases buf.len(),
{
    if buf.len() == 0 || !sequence::before(buf[0].header.sn, una) {
    } else {
        lemma_lead(buf.skip(1), una);
    }
}

/// What is left is some of what was there.
pub proof fn lemma_without_from(buf: Seq<SegmentModel>, sn: u32)
    ensures
        without(buf, sn).len() <= buf.len(),
        forall|i: int|
            0 <= i < without(buf, sn).len() ==> exists|j: int|
                0 <= j < buf.len() && buf[j] == #[trigger] without(buf, sn)[i],
    decreases buf.len(),
{
    if buf.len() > 0 {
        let front = buf.drop_last();
        lemma_without_from(front, sn);
        assert forall|i: int| 0 <= i < without(buf, sn).len() implies exists|j: int|
            0 <= j < buf.len() && buf[j] == #[trigger] without(buf, sn)[i] by {
            if i < without(front, sn).len() {
                assert(without(buf, sn)[i] == without(front, sn)[i]);
                let j = choose|j: int| 0 <= j < front.len() && front[j] == without(front, sn)[i];
                assert(buf[j] == front[j]);
            } else {
                assert(without(buf, sn)[i] == buf[buf.len() - 1]);
            }
        }
    }
}

/// Leaving a segment out keeps the order.
pub proof fn lemma_without_in_order(buf: Seq<SegmentModel>, sn: u32, base: u32, limit: int)
    requires
        engine::in_order(buf, base, limit),
    ensures
        engine::in_order(without(buf, sn), base, limit),
    decreases buf.len(),
{
    if buf.len() > 0 {
        let front = buf.drop_last();
        assert forall|i: int| 0 <= i < front.len() implies (#[trigger] front[i]) == buf[i] by {}
        lemma_without_in_order(front, sn, base, limit);
        lemma_without_from(front, sn);
        let w = without(front, sn);
        assert forall|i: int| 0 <= i < w.len() implies sequence::distance(
            base,
            (#[trigger] w[i]).header.sn,
        ) < sequence::distance(base, buf.last().header.sn) by {
            let j = choose|j: int| 0 <= j < front.len() && front[j] == w[i];
            assert(buf[j] == w[i]);
        }
    }
}

/// Leaving a segment out leaves sendable segments.
pub proof fn lemma_without_sendable(buf: Seq<SegmentModel>, sn: u32, mss: int)
    requires
        engine::sendable(buf, mss),
    ensures
        engine::sendable(without(buf, sn), mss),
{
    lemma_without_from(buf, sn);
    let w = without(buf, sn);
    assert forall|i: int| 0 <= i < w.len() implies (#[trigger] w[i]).len_matches()
        && w[i].data.len() <= mss by {
        let j = choose|j: int| 0 <= j < buf.len() && buf[j] == w[i];
        assert(buf[j].len_matches());
    }
}

/// Segments in order stay in order when counting starts at the first of them.
pub proof fn lemma_shrunk_wf(m: EngineModel)
    requires
        m.settings_wf(),
        m.receive_wf(),
        m.send_wf(),
    ensures
        m.shrunk().wf(),
        m.shrunk().inflight() <= m.inflight(),
{
    let after = m.shrunk();
    let una = m.snd_una;
    if m.snd_buf.len() > 0 {
        let first = m.snd_buf[0].header.sn;
        let d = sequence::distance(una, first);
        sequence::law_advanced_by_distance(una, first);
        engine::receiving::lemma_distance_shift(una, d, m.snd_nxt);
        assert forall|i: int| 0 <= i < m.snd_buf.len() implies sequence::distance(
            first,
            (#[trigger] m.snd_buf[i]).header.sn,
        ) == sequence::distance(una, m.snd_buf[i].header.sn) - d by {
            engine::receiving::lemma_distance_shift(una, d, m.snd_buf[i].header.sn);
        }
    }
}

/// An acknowledgement of everything before `una` keeps an engine well-formed.
pub proof fn lemma_acked_before_wf(m: EngineModel, una: u32)
    requires
        m.settings_wf(),
        m.receive_wf(),
        m.send_wf(),
    ensures
        m.acked_before(una).wf(),
{
    lemma_lead(m.snd_buf, una);
    let k = lead(m.snd_buf, una) as int;
    let rest = m.snd_buf.skip(k);
    assert forall|i: int| 0 <= i < rest.len() implies (#[trigger] rest[i]) == m.snd_buf[i + k] by {}
    lemma_shrunk_wf(EngineModel { snd_buf: rest, ..m });
}

/// An acknowledgement of one segment keeps an engine well-formed.
pub proof fn lemma_acked_wf(m: EngineModel, sn: u32)
    requires
        m.wf(),
    ensures
        m.acked(sn).wf(),
{
    lemma_without_in_order(m.snd_buf, sn, m.snd_una, m.inflight());
    lemma_without_sendable(m.snd_buf, sn, m.mss());
    lemma_shrunk_wf(m);
    lemma_shrunk_wf(EngineModel { snd_buf: without(m.snd_buf, sn), ..m });
}

/// A round-trip sample leaves the timeout within its limits.
pub proof fn lemma_measured(rtt: RttState, sample: u32, interval: u32)
    requires
        rtt.min_rto <= constants::IKCP_RTO_MAX,
    ensures
        rtt.min_rto <= measured(rtt, sample, interval).rto <= constants::IKCP_RTO_MAX,
        measured(rtt, sample, interval).min_rto == rtt.min_rto,
{
}

/// What a segment says about the peer keeps an engine well-formed.
pub proof fn lemma_told_wf(m: EngineModel, h: KcpHeader)
    requires
        m.wf(),
    ensures
        m.told(h).wf(),
{
    lemma_acked_before_wf(EngineModel { wnd: WindowState { rmt: h.wnd as u32, ..m.wnd }, ..m }, h.una);
}

/// Taking in a segment keeps an engine well-formed.
pub proof fn lemma_absorbed_wf(m: EngineModel, seg: SegmentModel, now: u32)
    requires
        m.wf(),
    ensures
        m.absorbed(seg, now).wf(),
        m.absorbed(seg, now).conv == m.conv,
{
    let t = m.told(seg.header);
    lemma_told_wf(m, seg.header);
    if seg.header.cmd == constants::IKCP_CMD_ACK {
        if now >= seg.header.ts {
            let s = (now - seg.header.ts) as u32;
            lemma_measured(t.rtt, s, t.config.nodelay.interval);
            assert(t.timed(s).wf());
            lemma_acked_wf(t.timed(s), seg.header.sn);
        } else {
            lemma_acked_wf(t, seg.header.sn);
        }
    } else if seg.header.cmd == constants::IKCP_CMD_PUSH {
        let a = EngineModel { ack_list: t.ack_list.push((seg.header.sn, seg.header.ts)), ..t };
        assert(a.wf());
        engine::receiving::lemma_stored_wf(a, seg);
    }
}

/// Counting fast acknowledgements keeps an engine well-formed.
pub proof fn lemma_fast_acked_wf(m: EngineModel, sn: u32)
    requires
        m.wf(),
    ensures
        m.fast_acked(sn).wf(),
{
    let after = m.fast_acked(sn);
    assert forall|i: int| 0 <= i < after.snd_buf.len() implies (#[trigger] after.snd_buf[i]).header
        == m.snd_buf[i].header && after.snd_buf[i].data == m.snd_buf[i].data by {}
    assert(engine::sendable(after.snd_buf, after.mss())) by {
        assert forall|i: int| 0 <= i < after.snd_buf.len() implies (
        #[trigger] after.snd_buf[i]).len_matches() && after.snd_buf[i].data.len() <= after.mss() by {
            assert(m.snd_buf[i].len_matches());
        }
    }
}

/// The first segment of a packet, and what follows it.
proof fn lemma_parse_step(s: Seq<u8>, h: KcpHeader)
    requires
        s.len() >= 24,
        h == protocol::header_at_front(s),
        h.len <= s.len() - 24,
    ensures
        parse_packet(s).len() > 0,
        parse_packet(s)[0] == SegmentModel::fresh(h, s.skip(24).take(h.len as int)),
        parse_packet(s).skip(1) == parse_packet(s.skip(24).skip(h.len as int)),
{
    let end = 24 + h.len as int;
    assert(s.subrange(24, end) =~= s.skip(24).take(h.len as int));
    assert(s.skip(24).skip(h.len as int) =~= s.skip(end));
    assert(parse_packet(s).skip(1) =~= parse_packet(s.skip(end)));
}

/// Adjusts the round-trip state by a sample.
fn measure(rtt: RttState, sample: u32, interval: u32) -> (r: RttState)
    requires
        rtt.min_rto <= constants::IKCP_RTO_MAX,
    ensures
        r == measured(rtt, sample, interval),
{
    let (avg, var): (u64, u64) = if rtt.avg == 0 {
        (sample as u64, sample as u64 / 2)
    } else {
        proof {
            sequence::lemma_as_signed(sample);
            sequence::lemma_as_signed(rtt.avg);
        }
        let s: i64 = (sample as i32) as i64;
        let a: i64 = (rtt.avg as i32) as i64;
        let delta: u64 = if s > a {
            (s - a) as u64
        } else {
            (a - s) as u64
        };
        let moved: u64 = (7 * (rtt.avg as u64) + sample as u64) / 8;
        (
            if moved < 1 {
                1
            } else {
                moved
            },
            (3 * (rtt.var as u64) + delta) / 4,
        )
    };
    let spread: u64 = if var < interval as u64 {
        interval as u64
    } else {
        var
    };
    let rto: u64 = avg + 4 * spread;
    let limited: u32 = if rto < rtt.min_rto as u64 {
        rtt.min_rto
    } else if rto > constants::IKCP_RTO_MAX as u64 {
        constants::IKCP_RTO_MAX
    } else {
        rto as u32
    };
    RttState { avg: avg as u32, var: var as u32, rto: limited, min_rto: rtt.min_rto }
}

/// A number of 64 bits, or the largest of 32 bits if it is larger.
pub(super) fn cap(x: u64) -> (r: u32)
    ensures
        r == capped(x as int),
{
    if x <= u32::MAX as u64 {
        x as u32
    } else {
        u32::MAX
    }
}

/// Lets the congestion window grow after an acknowledgement.
fn grow(wnd: WindowState, mss: u32) -> (r: WindowState)
    requires
        mss > 0,
        wnd.cwnd < wnd.rmt <= 0xffff,
    ensures
        r == grown(wnd, mss as int),
{
    let m: u64 = mss as u64;
    let (cwnd, incr): (u64, u32) = if wnd.cwnd < wnd.ssthresh {
        (wnd.cwnd as u64 + 1, cap(wnd.incr as u64 + m))
    } else {
        let base: u64 = if (wnd.incr as u64) < m {
            m
        } else {
            wnd.incr as u64
        };
        assert(m * m <= 0xffff_ffff * 0xffff_ffff) by (nonlinear_arith)
            requires
                m <= 0xffff_ffff,
        ;
        let step: u64 = m * m / base;
        assert(step <= m) by (nonlinear_arith)
            requires
                step == m * m / (base as int),
                0 < m <= base,
        ;
        let incr: u32 = cap(base + step + m / 16);
        assert((wnd.cwnd + 1) * m <= 0x1_0000 * 0xffff_ffff) by (nonlinear_arith)
            requires
                wnd.cwnd + 1 <= 0x1_0000,
                m <= 0xffff_ffff,
        ;
        let cwnd: u64 = if (wnd.cwnd as u64 + 1) * m <= incr as u64 {
            (incr as u64 + m - 1) / m
        } else {
            wnd.cwnd as u64
        };
        assert((wnd.cwnd + 1) * mss == (wnd.cwnd + 1) * m);
        assert(mss * mss == m * m);
        (cwnd, incr)
    };
    if cwnd > wnd.rmt as u64 {
        assert(wnd.rmt * m <= 0xffff * 0xffff_ffff) by (nonlinear_arith)
            requires
                wnd.rmt <= 0xffff,
                m <= 0xffff_ffff,
        ;
        assert(wnd.rmt * mss == wnd.rmt * m);
        WindowState { cwnd: wnd.rmt, incr: cap(wnd.rmt as u64 * m), ..wnd }
    } else {
        WindowState { cwnd: cwnd as u32, incr, ..wnd }
    }
}

impl KcpEngine {
    /// Moves the first unacknowledged number to the first segment in flight.
    fn shrink_buf(&mut self)
        ensures
            final(self)@ == old(self)@.shrunk(),
    {
        if self.snd_buf.len() > 0 {
            assert(self@.snd_buf[0] == self.snd_buf@[0]@);
            self.snd_una = self.snd_buf[0].header.sn;
        } else {
            self.snd_una = self.snd_nxt;
        }
    }

    /// Forgets the segments that the peer has received: everything before `una`.
    fn parse_una(&mut self, una: u32)
        ensures
            final(self)@ == (EngineModel {
                snd_buf: old(self)@.snd_buf.skip(lead(old(self)@.snd_buf, una) as int),
                ..old(self)@
            }),
    {
        let ghost m = self@;
        let ghost mut k: int = 0;
        proof {
            assert(m.snd_buf.skip(0) =~= m.snd_buf);
            lemma_lead(m.snd_buf, una);
        }
        while self.snd_buf.len() > 0 && seq_before(self.snd_buf[0].header.sn, una)
            invariant
                0 <= k <= m.snd_buf.len(),
                self@ == (EngineModel { snd_buf: m.snd_buf.skip(k), ..m }),
                k + lead(m.snd_buf.skip(k), una) == lead(m.snd_buf, una),
            decreases self.snd_buf@.len(),
        {
            proof {
                engine::lemma_models_front(self.snd_buf@);
                assert(m.snd_buf.skip(k).skip(1) =~= m.snd_buf.skip(k + 1));
                k = k + 1;
            }
            let _ = self.snd_buf.pop_front();
        }
        proof {
            if self.snd_buf@.len() > 0 {
                assert(self@.snd_buf[0] == self.snd_buf@[0]@);
            }
        }
    }

    /// Forgets the segment `sn`, which the peer has received.
    fn parse_ack(&mut self, sn: u32)
        ensures
            final(self)@ == (if old(self)@.outstanding(sn) {
                EngineModel { snd_buf: without(old(self)@.snd_buf, sn), ..old(self)@ }
            } else {
                old(self)@
            }),
    {
        if seq_before(sn, self.snd_una) || !seq_before(sn, self.snd_nxt) {
            return ;
        }
        let ghost m = self@;
        let mut kept: VecDeque<KcpSegment> = VecDeque::new();
        let ghost mut k: int = 0;
        proof {
            assert(m.snd_buf.skip(0) =~= m.snd_buf);
            assert(engine::models(kept@) =~= without(m.snd_buf.take(0), sn));
        }
        while self.snd_buf.len() > 0
            invariant
                0 <= k <= m.snd_buf.len(),
                self@ == (EngineModel { snd_buf: m.snd_buf.skip(k), ..m }),
                engine::models(kept@) == without(m.snd_buf.take(k), sn),
            decreases self.snd_buf@.len(),
        {
            proof {
                engine::lemma_models_front(self.snd_buf@);
                assert(m.snd_buf.skip(k).skip(1) =~= m.snd_buf.skip(k + 1));
                assert(m.snd_buf.take(k + 1).drop_last() =~= m.snd_buf.take(k));
            }
            match self.snd_buf.pop_front() {
                Some(segment) => {
                    proof {
                        engine::lemma_models_push(kept@, segment);
                        assert(m.snd_buf.take(k + 1).last() == segment@);
                        k = k + 1;
                    }
                    if segment.header.sn != sn {
                        kept.push_back(segment);
                    }
                },
                None => {},
            }
        }
        proof {
            assert(self@.snd_buf.len() == m.snd_buf.len() - k);
            assert(m.snd_buf.take(k) =~= m.snd_buf);
        }
        self.snd_buf = kept;
    }

    /// Counts a fast acknowledgement for the segments that `sn` has overtaken.
    fn parse_fastack(&mut self, sn: u32)
        ensures
            final(self)@ == old(self)@.fast_acked(sn),
    {
        if seq_before(sn, self.snd_una) || !seq_before(sn, self.snd_nxt) {
            return ;
        }
        let ghost m = self@;
        let ghost goal = m.fast_acked(sn).snd_buf;
        let mut done: VecDeque<KcpSegment> = VecDeque::new();
        let ghost mut k: int = 0;
        proof {
            assert(m.snd_buf.skip(0) =~= m.snd_buf);
            assert(engine::models(done@) =~= goal.take(0));
        }
        while self.snd_buf.len() > 0
            invariant
                0 <= k <= m.snd_buf.len(),
                m.outstanding(sn),
                goal == m.fast_acked(sn).snd_buf,
                self@ == (EngineModel { snd_buf: m.snd_buf.skip(k), ..m }),
                engine::models(done@) == goal.take(k),
            decreases self.snd_buf@.len(),
        {
            proof {
                engine::lemma_models_front(self.snd_buf@);
                assert(m.snd_buf.skip(k).skip(1) =~= m.snd_buf.skip(k + 1));
                assert(m.snd_buf.skip(k)[0] == m.snd_buf[k]);
            }
            match self.snd_buf.pop_front() {
                Some(first) => {
                    let mut segment = first;
                    if seq_before(segment.header.sn, sn) {
                        segment.fastack = segment.fastack.saturating_add(1);
                    }
                    proof {
                        engine::lemma_models_push(done@, segment);
                        assert(segment@ =~= goal[k]);
                        assert(goal.take(k + 1) =~= goal.take(k).push(goal[k]));
                        k = k + 1;
                    }
                    done.push_back(segment);
                },
                None => {},
            }
        }
        proof {
            assert(self@.snd_buf.len() == m.snd_buf.len() - k);
            assert(goal.take(k) =~= goal);
        }
        self.snd_buf = done;
    }

    /// Takes in a round-trip sample.
    fn update_ack(&mut self, sample: u32)
        requires
            old(self)@.settings_wf(),
        ensures
            final(self)@ == old(self)@.timed(sample),
    {
        self.rtt = measure(self.rtt, sample, self.config.nodelay.interval);
        self.stats.rtt = self.rtt.avg;
        self.stats.rtt_var = self.rtt.var;
        self.stats.rto = self.rtt.rto;
    }

    /// Adjusts the congestion window after a packet.
    fn update_cwnd(&mut self)
        requires
            old(self)@.settings_wf(),
        ensures
            final(self)@ == old(self)@.window_grown(),
    {
        if seq_after(self.snd_una, self.wnd.cwnd) && self.wnd.cwnd < self.wnd.rmt {
            let mss: u32 = self.mss();
            self.wnd = grow(self.wnd, mss);
        }
    }

    /// Takes in what every segment says: the window of the peer, and what it has received.
    fn take_header(&mut self, header: &KcpHeader)
        requires
            old(self).wf(),
        ensures
            final(self)@ == old(self)@.told(*header),
            final(self).wf(),
    {
        proof {
            lemma_told_wf(self@, *header);
        }
        self.wnd.rmt = header.wnd as u32;
        self.parse_una(header.una);
        self.shrink_buf();
    }

    /// Takes in an acknowledgement.
    fn take_ack(&mut self, sn: u32, ts: u32, now: u32)
        requires
            old(self).wf(),
        ensures
            final(self)@ == (if now >= ts {
                old(self)@.timed((now - ts) as u32).acked(sn)
            } else {
                old(self)@.acked(sn)
            }),
            final(self).wf(),
    {
        if now >= ts {
            proof {
                lemma_measured(self@.rtt, (now - ts) as u32, self@.config.nodelay.interval);
            }
            self.update_ack(now - ts);
        }
        assert(self@.wf());
        proof {
            lemma_acked_wf(self@, sn);
        }
        self.parse_ack(sn);
        self.shrink_buf();
    }

    /// Takes in a data segment.
    fn take_data(&mut self, segment: KcpSegment)
        requires
            old(self).wf(),
        ensures
            final(self)@ == old(self)@.given_data(segment@),
            final(self).wf(),
    {
        let sn: u32 = segment.header.sn;
        let ts: u32 = segment.header.ts;
        if seq_before(sn, self.rcv_nxt.wrapping_add(self.wnd.rcv)) {
            self.ack_list.push((sn, ts));
            if !seq_before(sn, self.rcv_nxt) {
                self.parse_data(segment);
            }
        }
    }

    /// Takes in one segment of a packet.
    fn absorb(&mut self, segment: KcpSegment, now: u32)
        requires
            old(self).wf(),
        ensures
            final(self)@ == old(self)@.absorbed(segment@, now),
            final(self).wf(),
    {
        let header = segment.header;
        self.take_header(&header);
        if header.cmd == constants::IKCP_CMD_ACK {
            self.take_ack(header.sn, header.ts, now);
        } else if header.cmd == constants::IKCP_CMD_PUSH {
            self.take_data(segment);
        } else if header.cmd == constants::IKCP_CMD_WASK {
            self.probe.ask_tell = true;
        }
    }

    /// Process a packet that comes in at the time `now`.
    #[verifier::rlimit(40)]
    pub fn input_at(&mut self, data: Bytes, now: u32) -> (r: KcpCoreResult<()>)
        requires
            old(self).wf(),
        ensures
            final(self).wf(),
            final(self)@ == old(self)@.fed(buffers::bytes_of(data), now),
            ({
                let packet = buffers::bytes_of(data);
                if packet.len() < 24 {
                    r is Err && r->Err_0.is_protocol("Packet too small"@)
                } else if digest(old(self)@, parse_packet(packet), None, now).foreign {
                    r is Err && r->Err_0.is_protocol("Invalid conversation ID"@)
                } else {
                    r is Ok
                }
            }),
    {
        if data.len() < KcpHeader::SIZE {
            return Err(KcpCoreError::protocol("Packet too small"));
        }
        let ghost m = self@;
        let ghost packet = buffers::bytes_of(data);
        let ghost whole = digest(m, parse_packet(packet), None, now);
        let mut buf = data;
        let mut newest: Option<u32> = None;
        let mut more = true;
        while more && buf.len() >= KcpHeader::SIZE
            invariant
                self.wf(),
                more ==> digest(self@, parse_packet(buffers::bytes_of(buf)), newest, now) == whole,
                !more ==> whole == (Digest { engine: self@, newest, foreign: false }),
                m == old(self)@,
                packet == buffers::bytes_of(data),
                packet.len() >= 24,
                whole == digest(m, parse_packet(packet), None, now),
            decreases buffers::bytes_of(buf).len() + (if more { 1int } else { 0int }),
        {
            let ghost s = buffers::bytes_of(buf);
            match KcpHeader::decode(&mut buf) {
                Some(header) => {
                    if header.len as usize > buf.len() {
                        assert(parse_packet(s).len() == 0);
                        more = false;
                    } else {
                        proof {
                            lemma_parse_step(s, header);
                        }
                        let body = buf.split_to(header.len as usize);
                        let segment = KcpSegment {
                            header,
                            data: body,
                            resendts: 0,
                            rto: constants::IKCP_RTO_DEF,
                            fastack: 0,
                            xmit: 0,
                        };
                        assert(segment@ =~= parse_packet(s)[0]);
                        if header.conv != self.conv {
                            return Err(KcpCoreError::protocol("Invalid conversation ID"));
                        }
                        self.absorb(segment, now);
                        if header.cmd == constants::IKCP_CMD_ACK {
                            newest = match newest {
                                None => Some(header.sn),
                                Some(sn) => if seq_after(header.sn, sn) {
                                    Some(header.sn)
                                } else {
                                    Some(sn)
                                },
                            };
                        }
                    }
                },
                None => {
                    more = false;
                },
            }
        }
        proof {
            if more {
                assert(parse_packet(buffers::bytes_of(buf)).len() == 0);
            }
            lemma_packet_done_wf(self@, newest, now);
        }
        if let Some(sn) = newest {
            proof {
                lemma_fast_acked_wf(self@, sn);
            }
            self.parse_fastack(sn);
        }
        self.update_cwnd();
        self.stats.packets_received = self.stats.packets_received.wrapping_add(1);
        self.last_recv = now;
        Ok(())
    }

    /// Process incoming packet.
    pub fn input(&mut self, data: Bytes) -> (r: KcpCoreResult<()>)
        requires
            old(self).wf(),
        ensures
            final(self).wf(),
            exists|now: u32|
                {
                    &&& final(self)@ == #[trigger] old(self)@.fed(buffers::bytes_of(data), now)
                    &&& (r is Ok <==> buffers::bytes_of(data).len() >= 24 && !digest(
                        old(self)@,
                        parse_packet(buffers::bytes_of(data)),
                        None,
                        now,
                    ).foreign)
                },
            buffers::bytes_of(data).len() < 24 ==> r is Err && r->Err_0.is_protocol(
                "Packet too small"@,
            ),
            buffers::bytes_of(data).len() >= 24 && r is Err ==> r->Err_0.is_protocol(
                "Invalid conversation ID"@,
            ),
    {
        let now: u32 = current_timestamp();
        self.input_at(data, now)
    }
}

/// Finishing a packet keeps an engine well-formed.
pub proof fn lemma_packet_done_wf(m: EngineModel, newest: Option<u32>, now: u32)
    requires
        m.wf(),
    ensures
        m.packet_done(newest, now).wf(),
{
    if let Some(sn) = newest {
        lemma_fast_acked_wf(m, sn);
    }
}

/// Taking in a packet keeps an engine well-formed.
pub proof fn lemma_fed_wf(m: EngineModel, packet: Seq<u8>, now: u32)
    requires
        m.wf(),
    ensures
        m.fed(packet, now).wf(),
{
    lemma_digest_wf(m, parse_packet(packet), None, now);
    let d = digest(m, parse_packet(packet), None, now);
    lemma_packet_done_wf(d.engine, d.newest, now);
}

/// Taking in segments keeps an engine well-formed.
pub proof fn lemma_digest_wf(m: EngineModel, segs: Seq<SegmentModel>, newest: Option<u32>, now: u32)
    requires
        m.wf(),
    ensures
        digest(m, segs, newest, now).engine.wf(),
    decreases segs.len(),
{
    if segs.len() > 0 && segs[0].header.conv == m.conv {
        lemma_absorbed_wf(m, segs[0], now);
        lemma_digest_wf(
            m.absorbed(segs[0], now),
            segs.skip(1),
            newest_ack(newest, segs[0].header),
            now,
        );
    }
}

} // verus!
