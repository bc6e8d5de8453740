//! The windows: what the receiver tells, what the sender makes of it, how a closed window is
//! opened again, and how congestion narrows and widens what may be in flight.
use super::{EngineModel, WindowState};
use crate::engine::flushing;
use crate::engine::flushing::Attempt;
use crate::engine::input;
use crate::engine::retransmission;
use crate::engine::supply;
use crate::engine::wire_laws;
use crate::protocol::SegmentModel;
use crate::sequence;
use vstd::prelude::*;

verus! {

/// A segment of this kind is among them.
pub open spec fn sends_kind(segs: Seq<SegmentModel>, cmd: u8) -> bool {
    exists|c: int| 0 <= c < segs.len() && (#[trigger] segs[c]).header.cmd == cmd
}

/// Every segment that a flush sends tells how many more segments the application's queue takes,
/// as far as sixteen bits hold it, and which number is expected next.
pub proof fn law_every_segment_tells_the_window(m: EngineModel, now: u32, c: int)
    requires
        m.wf(),
        supply::in_conversation(m),
        0 <= c < m.outgoing(now).len(),
    ensures
        m.outgoing(now)[c].header.wnd == (m.config.rcv_wnd - m.rcv_queue.len()) % 0x1_0000,
        m.outgoing(now)[c].header.una == m.rcv_nxt,
        m.outgoing(now)[c].header.conv == m.conv,
{
    wire_laws::law_outgoing_tells_window(m, now);
    supply::lemma_outgoing_conv(m, now, c);
}

/// Which control segments a flush sends.
proof fn lemma_control(m: EngineModel, now: u32)
    requires
        m.wf(),
        supply::in_conversation(m),
    ensures
        m.probe.ask_tell <==> sends_kind(m.outgoing(now), 84),
        sends_kind(m.outgoing(now), 83) <==> flushing::probing(
            m.probe,
            m.wnd.rmt,
            now,
        ).ask_send,
{
    let all = m.outgoing(now);
    let control = m.control_segments(now);
    let acks = m.ack_segments();
    let probes = m.probe_segments(now);
    let p = flushing::probing(m.probe, m.wnd.rmt, now);
    assert(p.ask_tell == m.probe.ask_tell);
    assert forall|c: int| 0 <= c < probes.len() implies all[acks.len() + c] == #[trigger] probes[c] by {
        assert(control[acks.len() + c] == probes[c]);
    }
    if p.ask_tell {
        assert(probes[probes.len() - 1].header.cmd == 84);
        assert(all[acks.len() + probes.len() - 1].header.cmd == 84);
    }
    if p.ask_send {
        assert(probes[0].header.cmd == 83);
        assert(all[acks.len() as int].header.cmd == 83);
    }
    assert forall|c: int| 0 <= c < all.len() implies ((#[trigger] all[c]).header.cmd == 84
        ==> p.ask_tell) && (all[c].header.cmd == 83 ==> p.ask_send) by {
        if c < acks.len() {
            assert(all[c] == acks[c]);
        } else if c < control.len() {
            assert(all[c] == probes[c - acks.len()]);
        } else {
            retransmission::lemma_data_follows_control(m, now, c);
        }
    }
}

/// A receiver whose queue was full and has room again says so: the next flush tells the peer the
/// window, and is due at once.
pub proof fn law_reopened_window_is_told(m: EngineModel, now: u32)
    requires
        m.wf(),
        supply::in_conversation(m),
        m.rcv_queue.len() == m.config.rcv_wnd,
        m.received().rcv_queue.len() < m.config.rcv_wnd,
    ensures
        ({
            let after = m.received();
            let room = m.config.rcv_wnd - after.rcv_queue.len();
            &&& after.next_deadline(now) == 0
            &&& exists|c: int|
                0 <= c < after.outgoing(now).len() && ({
                    let h = (#[trigger] after.outgoing(now)[c]).header;
                    &&& h.cmd == 84
                    &&& h.wnd == room % 0x1_0000
                    &&& room <= 0xffff ==> h.wnd > 0
                    &&& h.una == after.rcv_nxt
                    &&& h.conv == m.conv
                })
        }),
{
    let after = m.received();
    crate::engine::conversation::lemma_received_wf(m);
    assert(after.snd_buf == m.snd_buf && after.conv == m.conv && after.config == m.config);
    assert(after.probe.ask_tell);
    lemma_control(after, now);
    let c = choose|c: int|
        0 <= c < after.outgoing(now).len() && (#[trigger] after.outgoing(now)[c]).header.cmd == 84;
    law_every_segment_tells_the_window(after, now, c);
}

/// The peer is told the window when it has asked or when the window has opened again, and only
/// then. A flush tells it once.
pub proof fn law_window_is_told_when_asked(m: EngineModel, now: u32)
    requires
        m.wf(),
        supply::in_conversation(m),
    ensures
        m.probe.ask_tell <==> sends_kind(m.outgoing(now), 84),
        !m.flushed(now).probe.ask_tell,
        !m.flushed(now).probe.ask_send,
{
    lemma_control(m, now);
}

/// A question of the peer is not forgotten while more comes in.
proof fn lemma_question_stays(
    m: EngineModel,
    segs: Seq<SegmentModel>,
    newest: Option<u32>,
    now: u32,
    k: int,
)
    requires
        forall|j: int| 0 <= j < segs.len() ==> (#[trigger] segs[j]).header.conv == m.conv,
        m.probe.ask_tell || (0 <= k < segs.len() && segs[k].header.cmd == 83),
    ensures
        input::digest(m, segs, newest, now).engine.probe.ask_tell,
        !input::digest(m, segs, newest, now).foreign,
    decreases segs.len(),
{
    if segs.len() > 0 {
        let rest = segs.skip(1);
        let next = m.absorbed(segs[0], now);
        assert(segs[0].header.conv == m.conv);
        assert(next.conv == m.conv);
        assert forall|j: int| 0 <= j < rest.len() implies (#[trigger] rest[j]).header.conv
            == next.conv by {
            assert(rest[j] == segs[j + 1]);
        }
        if k > 0 && k < segs.len() {
            assert(rest[k - 1] == segs[k]);
        }
        lemma_question_stays(next, rest, input::newest_ack(newest, segs[0].header), now, k - 1);
    }
}

/// A peer that asks for the window is answered by the next flush.
pub proof fn law_window_question_is_answered(
    m: EngineModel,
    packet: Seq<u8>,
    at: u32,
    now: u32,
    k: int,
)
    requires
        m.wf(),
        supply::in_conversation(m),
        packet.len() >= 24,
        ({
            let segs = input::parse_packet(packet);
            &&& forall|j: int| 0 <= j < segs.len() ==> (#[trigger] segs[j]).header.conv == m.conv
            &&& 0 <= k < segs.len()
            &&& segs[k].header.cmd == 83
        }),
    ensures
        sends_kind(m.fed(packet, at).outgoing(now), 84),
        m.fed(packet, at).next_deadline(now) == 0,
{
    let segs = input::parse_packet(packet);
    let after = m.fed(packet, at);
    lemma_question_stays(m, segs, None, at, k);
    input::lemma_fed_wf(m, packet, at);
    supply::law_flight_is_data(m.conv, m.config, m, Seq::empty(), packet, at);
    assert(after.probe.ask_tell);
    lemma_control(after, now);
}

/// What segments of the peer do to the windows.
proof fn lemma_digest_windows(
    m: EngineModel,
    segs: Seq<SegmentModel>,
    newest: Option<u32>,
    now: u32,
)
    requires
        forall|j: int| 0 <= j < segs.len() ==> (#[trigger] segs[j]).header.conv == m.conv,
    ensures
        ({
            let d = input::digest(m, segs, newest, now);
            &&& !d.foreign
            &&& d.engine.wnd == (WindowState {
                rmt: if segs.len() == 0 {
                    m.wnd.rmt
                } else {
                    segs.last().header.wnd as u32
                },
                ..m.wnd
            })
            &&& d.engine.config == m.config
            &&& d.engine.stats.packets_received == m.stats.packets_received
            &&& d.engine.last_recv == m.last_recv
        }),
    decreases segs.len(),
{
    if segs.len() > 0 {
        let rest = segs.skip(1);
        let next = m.absorbed(segs[0], now);
        assert(segs[0].header.conv == m.conv);
        assert forall|j: int| 0 <= j < rest.len() implies (#[trigger] rest[j]).header.conv
            == next.conv by {
            assert(rest[j] == segs[j + 1]);
        }
        lemma_digest_windows(next, rest, input::newest_ack(newest, segs[0].header), now);
        if rest.len() > 0 {
            assert(rest.last() == segs.last());
        }
    }
}

/// The sender goes by the window that the latest segment of the peer tells.
pub proof fn law_sender_learns_the_window(m: EngineModel, packet: Seq<u8>, now: u32)
    requires
        packet.len() >= 24,
        input::parse_packet(packet).len() > 0,
        forall|j: int|
            0 <= j < input::parse_packet(packet).len() ==> (#[trigger] input::parse_packet(
                packet,
            )[j]).header.conv == m.conv,
    ensures
        m.fed(packet, now).wnd.rmt == input::parse_packet(packet).last().header.wnd,
        m.fed(packet, now).wnd.snd == m.wnd.snd,
        m.fed(packet, now).wnd.rcv == m.wnd.rcv,
{
    lemma_digest_windows(m, input::parse_packet(packet), None, now);
}

/// Flow control from end to end: whichever datagram of a receiver comes in, the sender knows how
/// much room the receiver had. A receiver that has room again gets the sender going.
pub proof fn law_sender_goes_by_the_receivers_room(
    s: EngineModel,
    b: EngineModel,
    sent: u32,
    p: int,
    now: u32,
)
    requires
        b.wf(),
        supply::in_conversation(b),
        s.conv == b.conv,
        b.config.rcv_wnd <= 0xffff,
        0 <= p < wire_laws::added(b, sent).len(),
    ensures
        s.fed(wire_laws::added(b, sent)[p], now).wnd.rmt == b.config.rcv_wnd - b.rcv_queue.len(),
{
    let packets = wire_laws::added(b, sent);
    let packet = packets[p];
    let segs = input::parse_packet(packet);
    wire_laws::law_flush_output(b, sent);
    assert(segs.len() > 0);
    let one = seq![packet];
    assert(one.drop_last() =~= Seq::empty());
    assert(wire_laws::unpacked(one.drop_last()) =~= Seq::empty());
    assert(wire_laws::unpacked(one) =~= segs);
    assert(wire_laws::drawn_from(one, packets)) by {
        assert forall|i: int| 0 <= i < one.len() implies packets.contains(#[trigger] one[i]) by {
            assert(one[i] == packets[p]);
        }
    }
    assert forall|j: int| 0 <= j < segs.len() implies (#[trigger] segs[j]).header.conv == s.conv
        && segs[j].header.wnd == b.config.rcv_wnd - b.rcv_queue.len() by {
        let i = wire_laws::lemma_drawn_segment(one, packets, j);
        assert(wire_laws::as_read(b.outgoing(sent))[i] == segs[j]);
        law_every_segment_tells_the_window(b, sent, i);
    }
    assert(packet.len() >= 24);
    law_sender_learns_the_window(s, packet, now);
    assert(segs[segs.len() - 1].header.wnd == b.config.rcv_wnd - b.rcv_queue.len());
}

/// The smaller of two numbers.
pub open spec fn smaller(a: int, b: int) -> int {
    if a < b {
        a
    } else {
        b
    }
}

/// A flush puts in flight as much as waits and the windows allow: the own send window, the peer's
/// window and, unless it is switched off, the congestion window.
pub proof fn law_windows_are_filled(m: EngineModel, now: u32)
    requires
        m.wf(),
    ensures
        ({
            let both = smaller(m.config.snd_wnd as int, m.wnd.rmt as int);
            let limit = if m.config.nodelay.no_congestion_control {
                both
            } else {
                smaller(both, m.wnd.cwnd as int)
            };
            let flight = (m.snd_nxt - m.snd_una) % 0x1_0000_0000;
            let after = m.flushed(now);
            let moved = after.snd_buf.len() - m.snd_buf.len();
            &&& 0 <= moved <= m.snd_queue.len()
            &&& after.snd_queue == m.snd_queue.skip(moved)
            &&& after.snd_nxt == (m.snd_nxt + moved) % 0x1_0000_0000
            &&& after.snd_una == m.snd_una
            &&& moved > 0 ==> flight + moved <= limit
            &&& moved < m.snd_queue.len() ==> flight + moved >= limit
        }),
{
    let p = m.prepared(now);
    let after = m.flushed(now);
    assert(after.snd_buf.len() == p.snd_buf.len());
    assert(p.snd_queue == m.snd_queue.skip(m.movable()));
    assert(after.snd_queue == p.snd_queue);
    assert(after.snd_nxt == p.snd_nxt);
}

/// While the peer's window is closed, it is asked after seven seconds, and again after waits that
/// grow by half each time, up to two minutes. An open window ends that.
pub proof fn law_closed_window_is_asked_ever_later(m: EngineModel, now: u32)
    requires
        m.wf(),
        supply::in_conversation(m),
        !m.probe.ask_send,
    ensures
        ({
            let p = m.probe;
            let q = m.flushed(now).probe;
            let base = if p.wait < 7000 {
                7000int
            } else {
                p.wait as int
            };
            let due = m.wnd.rmt == 0 && p.wait > 0 && retransmission::come(now, p.ts);
            &&& sends_kind(m.outgoing(now), 83) <==> due
            &&& m.wnd.rmt > 0 ==> q.wait == 0
            &&& m.wnd.rmt == 0 && p.wait == 0 ==> q.wait == 7000 && q.ts == (now + 7000)
                % 0x1_0000_0000
            &&& due ==> q.ts == (now + q.wait) % 0x1_0000_0000 && q.wait <= 120000 && (q.wait
                == 120000 || 2 * q.wait <= 3 * base < 2 * q.wait + 2) && 2 * q.wait <= 3 * base
            &&& m.wnd.rmt == 0 && p.wait > 0 && !due ==> q.wait == p.wait && q.ts == p.ts
        }),
{
    lemma_control(m, now);
}

/// A packet has been taken in whole: what it does to the congestion window.
proof fn lemma_fed_windows(m: EngineModel, packet: Seq<u8>, now: u32)
    requires
        m.wf(),
        packet.len() >= 24,
        forall|j: int|
            0 <= j < input::parse_packet(packet).len() ==> (#[trigger] input::parse_packet(
                packet,
            )[j]).header.conv == m.conv,
    ensures
        ({
            let after = m.fed(packet, now);
            let w = WindowState { rmt: after.wnd.rmt, ..m.wnd };
            &&& after.wnd == (if sequence::after(after.snd_una, w.cwnd) && w.cwnd < w.rmt {
                input::grown(w, m.mss())
            } else {
                w
            })
            &&& after.wnd.rmt <= 0xffff
            &&& after.stats.packets_received == (m.stats.packets_received + 1)
                % 0x1_0000_0000_0000_0000
            &&& after.last_recv == now
        }),
{
    let segs = input::parse_packet(packet);
    lemma_digest_windows(m, segs, None, now);
    input::lemma_fed_wf(m, packet, now);
}

/// The congestion window grows only after acknowledged data, never beyond the peer's window, and
/// never shrinks on account of a packet as long as the peer's window holds it. Up to the
/// threshold it grows by one segment at a time. A packet does not move the threshold.
pub proof fn law_congestion_window_grows(m: EngineModel, packet: Seq<u8>, now: u32)
    requires
        m.wf(),
        packet.len() >= 24,
        forall|j: int|
            0 <= j < input::parse_packet(packet).len() ==> (#[trigger] input::parse_packet(
                packet,
            )[j]).header.conv == m.conv,
    ensures
        ({
            let after = m.fed(packet, now);
            let grows = retransmission::offset(m.wnd.cwnd, after.snd_una) > 0 && m.wnd.cwnd
                < after.wnd.rmt;
            &&& after.wnd.ssthresh == m.wnd.ssthresh
            &&& !grows ==> after.wnd.cwnd == m.wnd.cwnd && after.wnd.incr == m.wnd.incr
            &&& grows ==> m.wnd.cwnd <= after.wnd.cwnd <= after.wnd.rmt
            &&& grows && m.wnd.cwnd < m.wnd.ssthresh ==> after.wnd.cwnd == m.wnd.cwnd + 1
                && after.wnd.incr == retransmission::at_most_max(m.wnd.incr + m.mss())
        }),
{
    lemma_fed_windows(m, packet, now);
    let after = m.fed(packet, now);
    let w = WindowState { rmt: after.wnd.rmt, ..m.wnd };
    if sequence::after(after.snd_una, w.cwnd) && w.cwnd < w.rmt && w.cwnd >= w.ssthresh {
        let base = input::larger(w.incr as int, m.mss());
        lemma_quotient(m.mss(), base);
        lemma_avoidance(w, m.mss(), m.mss() * m.mss() / base);
    }
}

/// Beyond the threshold the bytes that the window stands for grow by a sixteenth of a segment and
/// by `step`, which is a segment divided by the segments that the bytes make up. The window follows
/// when they make up one more segment, as far as the peer's window goes.
pub proof fn law_congestion_is_avoided(m: EngineModel, packet: Seq<u8>, now: u32, step: int)
    requires
        m.wf(),
        packet.len() >= 24,
        forall|j: int|
            0 <= j < input::parse_packet(packet).len() ==> (#[trigger] input::parse_packet(
                packet,
            )[j]).header.conv == m.conv,
        m.wnd.cwnd >= m.wnd.ssthresh,
        retransmission::offset(m.wnd.cwnd, m.fed(packet, now).snd_una) > 0,
        m.wnd.cwnd < m.fed(packet, now).wnd.rmt,
        ({
            let mss = m.config.mtu - 24;
            let base = if m.wnd.incr < mss {
                mss
            } else {
                m.wnd.incr as int
            };
            step * base <= mss * mss < step * base + base
        }),
    ensures
        ({
            let mss = m.config.mtu - 24;
            let w = m.wnd;
            let v = m.fed(packet, now).wnd;
            let base = if w.incr < mss {
                mss
            } else {
                w.incr as int
            };
            let bytes = retransmission::at_most_max(base + step + mss / 16);
            &&& bytes < (w.cwnd + 1) * mss ==> v.cwnd == w.cwnd && v.incr == bytes
            &&& (w.cwnd + 1) * mss <= bytes <= v.rmt * mss ==> (v.cwnd - 1) * mss < bytes <= v.cwnd
                * mss && v.incr == bytes
            &&& (w.cwnd + 1) * mss <= bytes && bytes > v.rmt * mss ==> v.cwnd == v.rmt && v.incr
                == retransmission::at_most_max(v.rmt * mss)
        }),
{
    lemma_fed_windows(m, packet, now);
    let w = WindowState { rmt: m.fed(packet, now).wnd.rmt, ..m.wnd };
    lemma_avoidance(w, m.mss(), step);
}

/// How the window grows beyond the threshold.
proof fn lemma_avoidance(w: WindowState, mss: int, step: int)
    requires
        mss > 0,
        w.cwnd >= w.ssthresh,
        w.cwnd < w.rmt <= 0xffff,
        ({
            let base = input::larger(w.incr as int, mss);
            step * base <= mss * mss < step * base + base
        }),
    ensures
        ({
            let v = input::grown(w, mss);
            let base = input::larger(w.incr as int, mss);
            let bytes = retransmission::at_most_max(base + step + mss / 16);
            &&& w.cwnd <= v.cwnd <= v.rmt
            &&& v.rmt == w.rmt
            &&& bytes < (w.cwnd + 1) * mss ==> v.cwnd == w.cwnd && v.incr == bytes
            &&& (w.cwnd + 1) * mss <= bytes <= v.rmt * mss ==> (v.cwnd - 1) * mss < bytes <= v.cwnd
                * mss && v.incr == bytes
            &&& (w.cwnd + 1) * mss <= bytes && bytes > v.rmt * mss ==> v.cwnd == v.rmt && v.incr
                == retransmission::at_most_max(v.rmt * mss)
        }),
{
    let base = input::larger(w.incr as int, mss);
    assert(step == mss * mss / base) by (nonlinear_arith)
        requires
            base > 0,
            step * base <= mss * mss < step * base + base,
    ;
    lemma_quotient(mss, base);
    let bytes = input::capped(base + step + mss / 16) as int;
    let n = (bytes + mss - 1) / mss;
    assert((n - 1) * mss < bytes <= n * mss) by (nonlinear_arith)
        requires
            mss > 0,
            n == (bytes + mss - 1) / mss,
    ;
    let k = w.cwnd + 1;
    let r = w.rmt as int;
    if k * mss <= bytes {
        assert(n >= k) by (nonlinear_arith)
            requires
                mss > 0,
                k * mss <= bytes <= n * mss,
        ;
    }
    assert(n > r <==> bytes > r * mss) by (nonlinear_arith)
        requires
            mss > 0,
            (n - 1) * mss < bytes <= n * mss,
    ;
}

/// A segment divided by the segments that the bytes make up is no less than zero, and such that
/// the bytes make up a segment no more often.
proof fn lemma_quotient(mss: int, base: int)
    requires
        mss > 0,
        base > 0,
    ensures
        mss * mss / base >= 0,
        (mss * mss / base) * base <= mss * mss < (mss * mss / base) * base + base,
{
    let q = mss * mss / base;
    assert(q * base <= mss * mss < q * base + base && q >= 0) by (nonlinear_arith)
        requires
            base > 0,
            mss > 0,
            q == mss * mss / base,
    ;
}

/// After a loss the window starts again: a flush that sends a segment again for want of time
/// leaves a congestion window of one segment, and a threshold of half of what it was. One that
/// sends only overtaken segments again halves what is in flight. One that does neither leaves
/// both alone. The threshold is never below two.
pub proof fn law_losses_narrow_the_window(m: EngineModel, now: u32)
    requires
        m.wf(),
        !m.gives_up(now),
        forall|i: int| 0 <= i < m.snd_buf.len() ==> (#[trigger] m.snd_buf[i]).fastack < 0xffff_ffff,
    ensures
        ({
            let after = m.flushed(now);
            let late = exists|i: int|
                0 <= i < m.snd_buf.len() && retransmission::overdue(#[trigger] m.snd_buf[i], now);
            let resend = m.config.nodelay.resend;
            let fast = exists|i: int|
                0 <= i < m.snd_buf.len() && !retransmission::overdue(
                    #[trigger] m.snd_buf[i],
                    now,
                ) && retransmission::outrun(m.snd_buf[i], resend);
            let flight = (after.snd_nxt - after.snd_una) % 0x1_0000_0000;
            let mss = m.config.mtu - 24;
            let old = m.wnd;
            let new = after.wnd;
            &&& !late && !fast ==> new.ssthresh == old.ssthresh && (if old.cwnd == 0 {
                new.cwnd == 1 && new.incr == mss
            } else {
                new.cwnd == old.cwnd && new.incr == old.incr
            })
            &&& late ==> new.cwnd == 1 && new.incr == mss && new.ssthresh >= 2
            &&& late && !fast ==> new.ssthresh == 2 && old.cwnd < 6 || 2 * new.ssthresh <= old.cwnd
                < 2 * new.ssthresh + 2
            &&& late && fast ==> {
                let halved = if flight < 4 {
                    2
                } else {
                    flight / 2
                };
                let widened = retransmission::at_most_max(halved + resend);
                new.ssthresh == 2 && widened < 6 || 2 * new.ssthresh <= widened < 2 * new.ssthresh
                    + 2
            }
            &&& fast && !late ==> {
                &&& new.ssthresh == 2 && flight < 6 || 2 * new.ssthresh <= flight < 2
                    * new.ssthresh + 2
                &&& new.ssthresh >= 2
                &&& new.cwnd == retransmission::at_most_max(new.ssthresh + resend)
                &&& new.incr == retransmission::at_most_max(new.cwnd * mss)
            }
            &&& new.rmt == old.rmt
            &&& new.snd == old.snd
            &&& new.rcv == old.rcv
            &&& after.stats.cwnd == new.cwnd
            &&& after.stats.snd_wnd == new.snd
            &&& after.stats.rcv_wnd == new.rcv
        }),
{
    let p = m.prepared(now);
    let pass = m.pass(now);
    let after = m.flushed(now);
    assert forall|i: int| 0 <= i < p.snd_buf.len() implies (i < m.snd_buf.len() ==> p.snd_buf[i]
        == m.snd_buf[i]) && (i >= m.snd_buf.len() ==> (#[trigger] p.snd_buf[i]).xmit == 0) by {}
    let late = exists|i: int|
        0 <= i < m.snd_buf.len() && retransmission::overdue(#[trigger] m.snd_buf[i], now);
    let fast = exists|i: int|
        0 <= i < m.snd_buf.len() && !retransmission::overdue(#[trigger] m.snd_buf[i], now)
            && retransmission::outrun(m.snd_buf[i], m.config.nodelay.resend);
    assert(late <==> pass.count(p.snd_buf, Attempt::Timeout) > 0) by {
        if late {
            let i = choose|i: int|
                0 <= i < m.snd_buf.len() && retransmission::overdue(#[trigger] m.snd_buf[i], now);
            assert(p.snd_buf[i] == m.snd_buf[i]);
            lemma_count_some(pass, p.snd_buf, Attempt::Timeout, i);
        }
        if pass.count(p.snd_buf, Attempt::Timeout) > 0 {
            let i = lemma_count_which(pass, p.snd_buf, Attempt::Timeout);
            assert(p.snd_buf[i].xmit > 0);
            assert(retransmission::overdue(m.snd_buf[i], now));
        }
    }
    assert(fast <==> pass.count(p.snd_buf, Attempt::Fast) > 0) by {
        if fast {
            let i = choose|i: int|
                0 <= i < m.snd_buf.len() && !retransmission::overdue(#[trigger] m.snd_buf[i], now)
                    && retransmission::outrun(m.snd_buf[i], m.config.nodelay.resend);
            assert(p.snd_buf[i] == m.snd_buf[i]);
            lemma_count_some(pass, p.snd_buf, Attempt::Fast, i);
        }
        if pass.count(p.snd_buf, Attempt::Fast) > 0 {
            let i = lemma_count_which(pass, p.snd_buf, Attempt::Fast);
            assert(p.snd_buf[i].xmit > 0);
            assert(m.snd_buf[i].fastack < 0xffff_ffff);
            assert(!retransmission::overdue(m.snd_buf[i], now));
        }
    }
    lemma_settled(m, now);
}

/// What a flush that does not give the link up does to the windows.
proof fn lemma_settled(m: EngineModel, now: u32)
    requires
        !m.gives_up(now),
    ensures
        ({
            let p = m.prepared(now);
            let pass = m.pass(now);
            let after = m.flushed(now);
            &&& after.wnd == flushing::adjusted(
                m.wnd,
                after.inflight(),
                pass.threshold(),
                m.mss(),
                pass.count(p.snd_buf, Attempt::Fast) > 0,
                pass.count(p.snd_buf, Attempt::Timeout) > 0,
            )
            &&& after.stats.cwnd == after.wnd.cwnd
            &&& after.stats.snd_wnd == after.wnd.snd
            &&& after.stats.rcv_wnd == after.wnd.rcv
        }),
{
}

/// A segment that meets with something is counted.
proof fn lemma_count_some(pass: flushing::Pass, segs: Seq<SegmentModel>, what: Attempt, i: int)
    requires
        0 <= i < segs.len(),
        pass.decide(segs[i]) == what,
    ensures
        pass.count(segs, what) > 0,
    decreases segs.len(),
{
    if i < segs.len() - 1 {
        assert(segs.drop_last()[i] == segs[i]);
        lemma_count_some(pass, segs.drop_last(), what, i);
    }
}

/// What is counted is some segment.
proof fn lemma_count_which(pass: flushing::Pass, segs: Seq<SegmentModel>, what: Attempt) -> (i: int)
    requires
        pass.count(segs, what) > 0,
    ensures
        0 <= i < segs.len(),
        pass.decide(segs[i]) == what,
    decreases segs.len(),
{
    if pass.decide(segs.last()) == what {
        segs.len() - 1
    } else {
        let i = lemma_count_which(pass, segs.drop_last(), what);
        assert(segs.drop_last()[i] == segs[i]);
        i
    }
}

/// A packet is heard: it is counted, and silence starts again at its time.
pub proof fn law_packets_end_silence(m: EngineModel, packet: Seq<u8>, now: u32)
    requires
        m.wf(),
        packet.len() >= 24,
        forall|j: int|
            0 <= j < input::parse_packet(packet).len() ==> (#[trigger] input::parse_packet(
                packet,
            )[j]).header.conv == m.conv,
    ensures
        m.fed(packet, now).last_recv == now,
        m.fed(packet, now).stats.packets_received == (m.stats.packets_received + 1)
            % 0x1_0000_0000_0000_0000,
{
    lemma_fed_windows(m, packet, now);
}

/// A packet that is too short, or that starts with a segment of another conversation, changes
/// nothing.
pub proof fn law_foreign_packets_change_nothing(m: EngineModel, packet: Seq<u8>, now: u32)
    requires
        packet.len() < 24 || (input::parse_packet(packet).len() > 0 && input::parse_packet(
            packet,
        )[0].header.conv != m.conv),
    ensures
        m.fed(packet, now) == m,
{
}

/// Taking a message gives no cause to tell the window unless the queue was full and no longer is.
pub proof fn law_window_is_not_told_unasked(m: EngineModel)
    requires
        m.wf(),
    ensures
        m.rcv_queue.len() < m.config.rcv_wnd ==> m.received().probe == m.probe,
        m.received().rcv_queue.len() >= m.config.rcv_wnd ==> m.received().probe == m.probe,
        m.received().probe.ask_send == m.probe.ask_send,
        m.received().probe.wait == m.probe.wait,
        m.received().probe.ts == m.probe.ts,
{
}

/// No packet without a question gives cause to tell the window.
pub proof fn law_only_questions_ask(m: EngineModel, packet: Seq<u8>, now: u32)
    requires
        forall|j: int|
            0 <= j < input::parse_packet(packet).len() ==> (#[trigger] input::parse_packet(
                packet,
            )[j]).header.cmd != 83,
    ensures
        m.fed(packet, now).probe == m.probe,
{
    lemma_digest_probe(m, input::parse_packet(packet), None, now);
}

/// Segments that ask nothing leave the probe state alone.
proof fn lemma_digest_probe(
    m: EngineModel,
    segs: Seq<SegmentModel>,
    newest: Option<u32>,
    now: u32,
)
    requires
        forall|j: int| 0 <= j < segs.len() ==> (#[trigger] segs[j]).header.cmd != 83,
    ensures
        input::digest(m, segs, newest, now).engine.probe == m.probe,
    decreases segs.len(),
{
    if segs.len() > 0 && segs[0].header.conv == m.conv {
        let rest = segs.skip(1);
        assert forall|j: int| 0 <= j < rest.len() implies (#[trigger] rest[j]).header.cmd
            != 83 by {
            assert(rest[j] == segs[j + 1]);
        }
        assert(segs[0].header.cmd != 83);
        assert(m.absorbed(segs[0], now).probe == m.probe);
        lemma_digest_probe(
            m.absorbed(segs[0], now),
            rest,
            input::newest_ack(newest, segs[0].header),
            now,
        );
    }
}

/// Nothing after a segment of another conversation counts: packets that hold the same up to such a
/// segment do the same.
pub proof fn law_foreign_segment_ends_a_packet(
    m: EngineModel,
    packet: Seq<u8>,
    other: Seq<u8>,
    now: u32,
    k: int,
)
    requires
        packet.len() >= 24,
        other.len() >= 24,
        0 <= k < input::parse_packet(packet).len(),
        0 <= k < input::parse_packet(other).len(),
        input::parse_packet(packet)[k].header.conv != m.conv,
        input::parse_packet(other)[k].header.conv != m.conv,
        input::parse_packet(packet).take(k) == input::parse_packet(other).take(k),
    ensures
        m.fed(packet, now) == m.fed(other, now),
        m.fed(packet, now).last_recv == m.last_recv,
        m.fed(packet, now).stats.packets_received == m.stats.packets_received,
        m.fed(packet, now).wnd.cwnd == m.wnd.cwnd,
{
    lemma_foreign_ends(
        m,
        input::parse_packet(packet),
        input::parse_packet(other),
        None,
        now,
        k,
    );
}

/// Segments that are the same up to one of another conversation do the same.
proof fn lemma_foreign_ends(
    m: EngineModel,
    a: Seq<SegmentModel>,
    b: Seq<SegmentModel>,
    newest: Option<u32>,
    now: u32,
    k: int,
)
    requires
        0 <= k < a.len(),
        0 <= k < b.len(),
        a[k].header.conv != m.conv,
        b[k].header.conv != m.conv,
        a.take(k) == b.take(k),
    ensures
        input::digest(m, a, newest, now) == input::digest(m, b, newest, now),
        input::digest(m, a, newest, now).foreign,
        input::digest(m, a, newest, now).engine.last_recv == m.last_recv,
        input::digest(m, a, newest, now).engine.stats.packets_received == m.stats.packets_received,
        input::digest(m, a, newest, now).engine.wnd.cwnd == m.wnd.cwnd,
    decreases k,
{
    if k > 0 {
        assert(a[0] == a.take(k)[0]);
        assert(b[0] == b.take(k)[0]);
        if a[0].header.conv == m.conv {
            let next = m.absorbed(a[0], now);
            assert(next.conv == m.conv);
            assert(a.skip(1).take(k - 1) =~= a.take(k).skip(1));
            assert(b.skip(1).take(k - 1) =~= b.take(k).skip(1));
            lemma_foreign_ends(
                next,
                a.skip(1),
                b.skip(1),
                input::newest_ack(newest, a[0].header),
                now,
                k - 1,
            );
        }
    }
}

} // verus!
