//! What a new engine starts from, when it has to be woken, and what waking it does.
use super::EngineModel;
use crate::config::KcpCoreConfig;
use crate::engine::control_laws;
use crate::engine::flushing;
use crate::engine::input;
use crate::engine::lifecycle;
use crate::engine::wire_laws;
use crate::protocol;
use crate::protocol::SegmentModel;
use crate::sequence;
use vstd::prelude::*;

verus! {

/// What a new engine starts from: nothing sent, received or owed, a timeout of 200 milliseconds, a
/// peer that is taken to have room for 128 segments, and windows as the settings say.
pub proof fn law_new_engine(conv: u32, config: KcpCoreConfig, now: u32)
    ensures
        ({
            let m = EngineModel::fresh(conv, config, now);
            &&& m.conv == conv
            &&& m.snd_una == 0 && m.snd_nxt == 0 && m.rcv_nxt == 0
            &&& m.rtt.avg == 0 && m.rtt.var == 0 && m.rtt.rto == 200
            &&& m.rtt.min_rto == (if config.nodelay.nodelay {
                30int
            } else {
                100
            })
            &&& m.wnd.snd == config.snd_wnd && m.wnd.cwnd == config.snd_wnd
            &&& m.wnd.rcv == config.rcv_wnd
            &&& m.wnd.rmt == 128 && m.wnd.ssthresh == 2 && m.wnd.incr == 0
            &&& !m.probe.ask_send && !m.probe.ask_tell && m.probe.wait == 0 && m.probe.ts == 0
            &&& m.snd_queue.len() == 0 && m.snd_buf.len() == 0
            &&& m.rcv_queue.len() == 0 && m.rcv_buf.len() == 0
            &&& m.ack_list.len() == 0 && m.output.len() == 0
            &&& m.stats.bytes_sent == 0 && m.stats.bytes_received == 0
            &&& m.stats.packets_sent == 0 && m.stats.packets_received == 0
            &&& m.stats.retransmissions == 0 && m.stats.fast_retransmissions == 0
            &&& m.last_update == now && m.last_recv == now && m.xmit_count == 0
            &&& config.mtu > 24 ==> m.config == config
            &&& config.mtu <= 24 ==> m.config == (KcpCoreConfig { mtu: 25, ..config })
        }),
{
}

/// The link counts as dead when timeouts have led to as many retransmissions as the settings
/// allow, and one at least.
pub proof fn law_dead_link(m: EngineModel)
    ensures
        m.dead() <==> m.xmit_count >= m.config.max_retries && m.xmit_count >= 1,
{
}

/// Data is unsent while it waits for a number or for its acknowledgement.
pub proof fn law_unsent_data(m: EngineModel)
    ensures
        !m.unsent() <==> m.snd_queue.len() == 0 && m.snd_buf.len() == 0,
{
}

/// A keep-alive probe is one datagram with one question for the window, whatever the state, and
/// changes nothing else.
pub proof fn law_keep_alive_asks(m: EngineModel, now: u32)
    requires
        m.wf(),
    ensures
        ({
            let after = m.nudged(now);
            let sent = input::parse_packet(after.output.last());
            &&& after.output.len() == m.output.len() + 1
            &&& after.output.drop_last() == m.output
            &&& after.output.last().len() == 24
            &&& sent.len() == 1
            &&& sent[0].header.cmd == 83
            &&& sent[0].header.conv == m.conv
            &&& sent[0].header.ts == now
            &&& sent[0].header.una == m.rcv_nxt
            &&& sent[0].header.frg == 0 && sent[0].header.len == 0
            &&& sent[0].header.wnd == (m.config.rcv_wnd - m.rcv_queue.len()) % 0x1_0000
            &&& after.stats.packets_sent == (m.stats.packets_sent + 1) % 0x1_0000_0000_0000_0000
            &&& after == (EngineModel {
                output: after.output,
                stats: after.stats,
                ..m
            })
        }),
{
    let seg = m.control(83, 0, now);
    let after = m.nudged(now);
    assert(after.output == m.output.push(seg.wire()));
    assert(after.output.drop_last() =~= m.output);
    protocol::lemma_header_wire_len(seg.header);
    wire_laws::lemma_parse_front(seg, Seq::empty());
    assert(seg.wire() + Seq::<u8>::empty() =~= seg.wire());
    assert(input::parse_packet(Seq::<u8>::empty()).len() == 0);
}

/// An update flushes when the interval has passed since the last one that did, or the clock has
/// been set back and the interval is zero; any other update only takes note of a clock that has
/// been set back.
pub proof fn law_updates_flush_once_per_interval(m: EngineModel, now: u32)
    requires
        m.wf(),
    ensures
        ({
            let after = m.updated(now);
            let due = now >= m.last_update + m.config.nodelay.interval
                || m.config.nodelay.interval == 0;
            &&& due ==> after.last_update == now && after.output.len() == m.flushed(
                now,
            ).output.len() && after.snd_buf == m.flushed(now).snd_buf && after.ack_list.len() == 0
            &&& !due && now >= m.last_update ==> after == m
            &&& !due && now < m.last_update ==> after == (EngineModel { last_update: now, ..m })
        }),
{
    let n = EngineModel { last_update: now, ..m };
    let due = now >= m.last_update + m.config.nodelay.interval || m.config.nodelay.interval == 0;
    if due {
        assert(n.movable() == m.movable());
        assert(n.prepared(now).snd_buf == m.prepared(now).snd_buf);
        assert(n.pass(now) == m.pass(now));
        assert(n.control_segments(now) =~= m.control_segments(now)) by {
            assert(n.ack_segments() =~= m.ack_segments());
            assert(n.probe_segments(now) =~= m.probe_segments(now));
        }
        assert(n.outgoing(now) == m.outgoing(now));
    } else if now >= m.last_update {
        assert(m.updated(now) == (EngineModel { last_update: m.last_update, ..m }));
    }
}

/// The statistics show the windows and how much is in flight and in wait, as a flush that does
/// not give the link up leaves them.
pub proof fn law_statistics_show_the_state(m: EngineModel, now: u32)
    requires
        m.wf(),
        !m.gives_up(now),
    ensures
        ({
            let after = m.flushed(now);
            &&& after.stats.snd_wnd == m.config.snd_wnd
            &&& after.stats.rcv_wnd == m.config.rcv_wnd
            &&& after.stats.cwnd == after.wnd.cwnd
            &&& after.snd_buf.len() < 0x1_0000_0000 ==> after.stats.snd_buf_size
                == after.snd_buf.len()
            &&& m.rcv_buf.len() < 0x1_0000_0000 ==> after.stats.rcv_buf_size == m.rcv_buf.len()
        }),
{
}

/// A segment that is not left alone is sent.
proof fn lemma_something_is_sent(pass: flushing::Pass, segs: Seq<SegmentModel>, i: int)
    requires
        0 <= i < segs.len(),
        !(pass.decide(segs[i]) is Quiet),
    ensures
        pass.transmitted(segs).len() > 0,
    decreases segs.len(),
{
    if i < segs.len() - 1 {
        assert(segs.drop_last()[i] == segs[i]);
        lemma_something_is_sent(pass, segs.drop_last(), i);
    }
}

/// A segment that is sent for the last time is within reach.
proof fn lemma_reach_holds_lost(pass: flushing::Pass, segs: Seq<SegmentModel>)
    requires
        pass.lost(segs),
    ensures
        0 < pass.reach(segs) <= segs.len(),
        pass.fatal(segs[pass.reach(segs) - 1]),
    decreases segs.len(),
{
    let front = segs.drop_last();
    if pass.lost(front) {
        lemma_reach_holds_lost(pass, front);
        assert(front[pass.reach(front) - 1] == segs[pass.reach(front) - 1]);
    } else {
        let i = choose|i: int| 0 <= i < segs.len() && pass.fatal(#[trigger] segs[i]);
        if i < segs.len() - 1 {
            assert(front[i] == segs[i]);
        }
    }
}

/// A flush sends something if a segment in flight is not to be left alone.
proof fn lemma_flush_sends(m: EngineModel, now: u32, i: int)
    requires
        0 <= i < m.prepared(now).snd_buf.len(),
        !(m.pass(now).decide(m.prepared(now).snd_buf[i]) is Quiet),
    ensures
        m.outgoing(now).len() > 0,
{
    let pass = m.pass(now);
    let segs = m.prepared(now).snd_buf;
    let part = segs.take(pass.reach(segs) as int);
    flushing::lemma_reach(pass, segs);
    if pass.lost(segs) {
        lemma_reach_holds_lost(pass, segs);
        let k = pass.reach(segs) - 1;
        assert(part[k] == segs[k]);
        lemma_something_is_sent(pass, part, k);
    } else {
        assert(part[i] == segs[i]);
        lemma_something_is_sent(pass, part, i);
    }
}

/// The first of the segments to run out of time.
proof fn lemma_soonest_is_one(segs: Seq<SegmentModel>, now: u32) -> (i: int)
    requires
        lifecycle::soonest(segs, now) < u32::MAX,
    ensures
        0 <= i < segs.len(),
        lifecycle::until(now, segs[i].resendts) == lifecycle::soonest(segs, now),
    decreases segs.len(),
{
    let rest = lifecycle::soonest(segs.drop_last(), now);
    if lifecycle::until(now, segs.last().resendts) < rest {
        segs.len() - 1
    } else {
        lemma_soonest_is_one(segs.drop_last(), now)
    }
}

/// When the wait is over, the moment has come.
proof fn lemma_moment_comes(now: u32, ts: u32)
    ensures
        !sequence::before(
            ((now + lifecycle::until(now, ts)) % 0x1_0000_0000) as u32,
            ts,
        ),
{
}

/// A waiting segment that may be sent is sent by the next flush.
proof fn lemma_moved_is_sent(m: EngineModel, now: u32)
    requires
        m.wf(),
        m.movable() > 0,
    ensures
        m.outgoing(now).len() > 0,
{
    let p = m.prepared(now);
    let i = m.snd_buf.len() as int;
    assert(p.snd_buf.len() == m.snd_buf.len() + m.movable());
    assert(p.snd_buf[i].xmit == 0);
    lemma_flush_sends(m, now, i);
}

/// Waking an engine at its deadline is not in vain: the flush then sends something, unless the
/// peer's window has just closed, when it only starts to wait for the next question. Nothing is
/// pending when the deadline is the largest number.
pub proof fn law_deadline_is_not_early(m: EngineModel, now: u32)
    requires
        m.wf(),
        m.wnd.rmt > 0 || m.probe.wait > 0,
        m.next_deadline(now) < 0xffff_ffff,
    ensures
        m.outgoing(
            ((now + m.next_deadline(now)) % 0x1_0000_0000) as u32,
        ).len() > 0,
{
    let d = m.next_deadline(now);
    let then = ((now + d) % 0x1_0000_0000) as u32;
    let p = m.prepared(then);
    if m.urgent() {
        if m.ack_list.len() > 0 || m.probe.ask_send || m.probe.ask_tell {
            assert(m.control_segments(then).len() > 0);
        } else if m.movable() > 0 {
            lemma_moved_is_sent(m, then);
        } else {
            let i = choose|i: int|
                0 <= i < m.snd_buf.len() && m.presses(#[trigger] m.snd_buf[i]);
            assert(p.snd_buf[i] == m.snd_buf[i]);
            assert(m.pass(then).threshold() == m.pass(0).threshold());
            lemma_flush_sends(m, then, i);
        }
    } else {
        let data = lifecycle::soonest(m.snd_buf, now);
        if m.wnd.rmt == 0 && lifecycle::until(now, m.probe.ts) < data {
            lemma_moment_comes(now, m.probe.ts);
            assert(m.probe_segments(then).len() > 0);
            assert(m.control_segments(then).len() > 0);
        } else {
            let i = lemma_soonest_is_one(m.snd_buf, now);
            lemma_moment_comes(now, m.snd_buf[i].resendts);
            assert(p.snd_buf[i] == m.snd_buf[i]);
            lemma_flush_sends(m, then, i);
        }
    }
}

/// No time from a moment on is the moment itself.
proof fn lemma_no_time(now: u32)
    ensures
        sequence::advanced(now, 0) == now,
{
}

/// Whatever a flush has to do at the time `now` is due at once.
pub proof fn law_due_work_is_due_now(m: EngineModel, now: u32)
    requires
        m.wf(),
        m.outgoing(now).len() > 0,
    ensures
        m.next_deadline(now) == 0,
{
    lemma_no_time(now);
    if m.next_deadline(now) > 0 {
        assert(m.outgoing(sequence::advanced(now, 0)).len() == 0) by {
            control_laws::law_nothing_is_due_before_deadline(m, now, 0);
        }
    }
}

} // verus!
