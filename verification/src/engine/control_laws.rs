//! What holds of flow control, retransmission and timing.
use super::flushing::Attempt;
use super::flushing::Pass;
use super::EngineModel;
use crate::engine;
use crate::engine::flushing;
use crate::engine::input;
use crate::engine::lifecycle;
use crate::engine::packing;
use crate::protocol::constants;
use crate::protocol::SegmentModel;
use crate::sequence;
use vstd::prelude::*;

verus! {

/// Which segments are left when one number is left out.
pub proof fn lemma_without_keeps(buf: Seq<SegmentModel>, sn: u32, i: int)
    requires
        0 <= i < buf.len(),
        buf[i].header.sn != sn,
    ensures
        input::without(buf, sn).contains(buf[i]),
    decreases buf.len(),
{
    let front = buf.drop_last();
    let w = input::without(buf, sn);
    if i < front.len() {
        lemma_without_keeps(front, sn, i);
        let f = input::without(front, sn);
        let j = choose|j: int| 0 <= j < f.len() && f[j] == buf[i];
        assert(w[j] == f[j]);
    } else {
        assert(w[w.len() - 1] == buf[i]);
    }
}

/// Which segments are dropped when the peer says what it expects next.
pub proof fn lemma_lead_before(buf: Seq<SegmentModel>, una: u32, i: int)
    requires
        0 <= i < input::lead(buf, una),
    ensures
        i < buf.len(),
        sequence::before(buf[i].header.sn, una),
    decreases buf.len(),
{
    if i > 0 {
        lemma_lead_before(buf.skip(1), una, i - 1);
    }
}

/// A segment stays in flight until the peer acknowledges it: by its own number, or by a number
/// beyond it that the peer expects next.
pub proof fn law_kept_until_acknowledged(m: EngineModel, seg: SegmentModel, now: u32, i: int)
    requires
        0 <= i < m.snd_buf.len(),
        !sequence::before(m.snd_buf[i].header.sn, seg.header.una),
        seg.header.cmd == constants::IKCP_CMD_ACK ==> seg.header.sn != m.snd_buf[i].header.sn,
    ensures
        m.absorbed(seg, now).snd_buf.contains(m.snd_buf[i]),
{
    let k = input::lead(m.snd_buf, seg.header.una) as int;
    input::lemma_lead(m.snd_buf, seg.header.una);
    if i < k {
        lemma_lead_before(m.snd_buf, seg.header.una, i);
    }
    let t = m.told(seg.header);
    assert(t.snd_buf[i - k] == m.snd_buf[i]);
    let after = m.absorbed(seg, now);
    if seg.header.cmd == constants::IKCP_CMD_ACK {
        lemma_without_keeps(t.snd_buf, seg.header.sn, i - k);
    } else {
        assert(after.snd_buf == t.snd_buf);
    }
}

/// A flush puts no more segments in flight than the windows of both sides allow.
pub proof fn law_flow_control(m: EngineModel, now: u32)
    requires
        m.wf(),
    ensures
        m.flushed(now).inflight() <= (if m.inflight() < m.send_window() {
            m.send_window()
        } else {
            m.inflight()
        }),
        m.send_window() <= m.wnd.snd,
        m.send_window() <= m.wnd.rmt,
        !m.config.nodelay.no_congestion_control ==> m.send_window() <= m.wnd.cwnd,
{
    let n = m.movable();
    let p = m.prepared(now);
    assert(p.snd_nxt == sequence::advanced(m.snd_nxt, n));
    assert(p.snd_una == m.snd_una);
    engine::receiving::lemma_advanced_twice(m.snd_una, m.inflight(), n);
    sequence::law_advanced_by_distance(m.snd_una, m.snd_nxt);
    sequence::law_distance_of_advanced(m.snd_una, m.inflight() + n);
    assert(m.flushed(now).inflight() == p.inflight());
}

/// While the windows leave room, a flush puts waiting segments in flight.
pub proof fn law_open_window_moves_data(m: EngineModel, now: u32)
    requires
        m.wf(),
        m.inflight() < m.send_window(),
        m.snd_queue.len() > 0,
    ensures
        m.movable() > 0,
        m.flushed(now).snd_queue == m.snd_queue.skip(m.movable()),
        m.flushed(now).snd_buf.len() == m.snd_buf.len() + m.movable(),
{
}

/// While the peer's window is closed, no waiting segment is sent.
pub proof fn law_closed_window_holds_data(m: EngineModel, now: u32)
    requires
        m.wf(),
        m.wnd.rmt == 0,
    ensures
        m.flushed(now).snd_queue == m.snd_queue,
        m.flushed(now).snd_nxt == m.snd_nxt,
{
    assert(m.movable() == 0);
    assert(m.snd_queue.skip(0) =~= m.snd_queue);
    assert(sequence::advanced(m.snd_nxt, 0) == m.snd_nxt);
}

/// While the peer's window is closed, the peer is asked for it each time the wait is over.
pub proof fn law_closed_window_is_probed(m: EngineModel, now: u32)
    requires
        m.wf(),
        m.wnd.rmt == 0,
        m.probe.wait != 0,
        !sequence::before(now, m.probe.ts),
    ensures
        m.outgoing(now).contains(m.control(constants::IKCP_CMD_WASK, 0, now)),
        m.flushed(now).probe.wait >= m.probe.wait || m.probe.wait > constants::IKCP_PROBE_LIMIT,
        m.flushed(now).probe.wait <= constants::IKCP_PROBE_LIMIT,
{
    let ask = m.control(constants::IKCP_CMD_WASK, 0, now);
    let acks = m.ack_segments();
    assert(m.probe_segments(now)[0] == ask);
    assert(m.control_segments(now)[acks.len() as int] == ask);
    assert(m.outgoing(now)[acks.len() as int] == ask);
}

/// A flush that does not give the link up leaves a congestion window of at least one segment.
pub proof fn law_window_stays_open(m: EngineModel, now: u32)
    requires
        m.wf(),
        !m.gives_up(now),
    ensures
        m.flushed(now).wnd.cwnd >= 1,
        m.flushed(now).stats.cwnd == m.flushed(now).wnd.cwnd,
{
}

/// Whatever comes in, the retransmission timeout stays within its limits.
pub proof fn law_timeout_is_bounded(m: EngineModel, packet: Seq<u8>, now: u32)
    requires
        m.wf(),
    ensures
        constants::IKCP_RTO_NDL <= m.fed(packet, now).rtt.rto <= constants::IKCP_RTO_MAX,
        !m.config.nodelay.nodelay ==> constants::IKCP_RTO_MIN <= m.fed(packet, now).rtt.rto,
{
    input::lemma_fed_wf(m, packet, now);
    lemma_fed_config(m, packet, now);
}

/// A packet does not change the settings.
pub proof fn lemma_fed_config(m: EngineModel, packet: Seq<u8>, now: u32)
    ensures
        m.fed(packet, now).config == m.config,
{
    lemma_digest_config(m, input::parse_packet(packet), None, now);
}

/// Segments do not change the settings.
proof fn lemma_digest_config(
    m: EngineModel,
    segs: Seq<SegmentModel>,
    newest: Option<u32>,
    now: u32,
)
    ensures
        input::digest(m, segs, newest, now).engine.config == m.config,
    decreases segs.len(),
{
    if segs.len() > 0 && segs[0].header.conv == m.conv {
        lemma_digest_config(
            m.absorbed(segs[0], now),
            segs.skip(1),
            input::newest_ack(newest, segs[0].header),
            now,
        );
    }
}

/// A segment that is due is among those that are sent.
pub proof fn lemma_due_transmitted(pass: Pass, segs: Seq<SegmentModel>, i: int)
    requires
        0 <= i < segs.len(),
        !(pass.decide(segs[i]) is Quiet),
    ensures
        pass.transmitted(segs).contains(pass.tried(segs[i])),
    decreases segs.len(),
{
    let front = segs.drop_last();
    let t = pass.transmitted(segs);
    if i < front.len() {
        lemma_due_transmitted(pass, front, i);
        let f = pass.transmitted(front);
        let j = choose|j: int| 0 <= j < f.len() && f[j] == pass.tried(segs[i]);
        assert(t[j] == f[j]);
    } else {
        assert(t[t.len() - 1] == pass.tried(segs[i]));
    }
}

/// A segment in flight whose time has run out is sent again by a flush, unless the flush gives
/// the link up.
pub proof fn law_overdue_is_sent_again(m: EngineModel, now: u32, i: int)
    requires
        m.wf(),
        !m.gives_up(now),
        0 <= i < m.snd_buf.len(),
        m.snd_buf[i].xmit > 0,
        !sequence::before(now, m.snd_buf[i].resendts),
    ensures
        m.outgoing(now).contains(m.pass(now).tried(m.snd_buf[i])),
        m.pass(now).decide(m.snd_buf[i]) is Timeout,
{
    let p = m.prepared(now);
    let pass = m.pass(now);
    assert(p.snd_buf[i] == m.snd_buf[i]);
    flushing::lemma_reach(pass, p.snd_buf);
    assert(p.snd_buf.take(p.snd_buf.len() as int) =~= p.snd_buf);
    lemma_due_transmitted(pass, p.snd_buf, i);
    let t = pass.transmitted(p.snd_buf);
    let j = choose|j: int| 0 <= j < t.len() && t[j] == pass.tried(m.snd_buf[i]);
    let control = m.control_segments(now);
    assert(m.outgoing(now)[control.len() + j] == t[j]);
}

/// When no segment is due, none is sent.
proof fn lemma_quiet(pass: Pass, segs: Seq<SegmentModel>)
    requires
        forall|i: int| 0 <= i < segs.len() ==> pass.decide(#[trigger] segs[i]) is Quiet,
    ensures
        pass.transmitted(segs).len() == 0,
    decreases segs.len(),
{
    if segs.len() > 0 {
        let front = segs.drop_last();
        assert forall|i: int| 0 <= i < front.len() implies pass.decide(
            #[trigger] front[i],
        ) is Quiet by {
            assert(segs[i] == front[i]);
        }
        lemma_quiet(pass, front);
        assert(pass.decide(segs[segs.len() - 1]) is Quiet);
    }
}

/// No segment runs out of time before the soonest.
proof fn lemma_soonest(segs: Seq<SegmentModel>, now: u32, i: int)
    requires
        0 <= i < segs.len(),
    ensures
        lifecycle::soonest(segs, now) <= lifecycle::until(now, segs[i].resendts),
    decreases segs.len(),
{
    if i < segs.len() - 1 {
        lemma_soonest(segs.drop_last(), now, i);
    }
}

/// Before a moment that is still to come, it is still to come.
proof fn lemma_still_to_come(now: u32, ts: u32, t: int)
    requires
        0 <= t < lifecycle::until(now, ts),
    ensures
        sequence::before(sequence::advanced(now, t), ts),
{
}

/// A flush before the deadline that `check` gives sends nothing, so an engine that is left
/// alone until then misses nothing.
pub proof fn law_nothing_is_due_before_deadline(m: EngineModel, now: u32, t: int)
    requires
        m.wf(),
        0 <= t < m.next_deadline(now),
    ensures
        m.outgoing(sequence::advanced(now, t)).len() == 0,
        m.flushed(sequence::advanced(now, t)).output == m.output,
        m.flushed(sequence::advanced(now, t)).snd_queue == m.snd_queue,
{
    let moment = sequence::advanced(now, t);
    let pass = m.pass(moment);
    let p = m.prepared(moment);
    assert(!m.urgent());
    assert(m.movable() == 0);
    if m.wnd.rmt == 0 {
        lemma_still_to_come(now, m.probe.ts, t);
    }
    assert(m.control_segments(moment) =~= Seq::empty());
    assert(p.snd_buf =~= m.snd_buf);
    assert(m.snd_queue.skip(0) =~= m.snd_queue);
    assert forall|i: int| 0 <= i < m.snd_buf.len() implies pass.decide(
        #[trigger] m.snd_buf[i],
    ) is Quiet by {
        lemma_soonest(m.snd_buf, now, i);
        lemma_still_to_come(now, m.snd_buf[i].resendts, t);
        assert(!m.presses(m.snd_buf[i]));
    }
    flushing::lemma_reach(pass, p.snd_buf);
    let part = p.snd_buf.take(pass.reach(p.snd_buf) as int);
    assert forall|i: int| 0 <= i < part.len() implies pass.decide(#[trigger] part[i]) is Quiet by {
        assert(part[i] == m.snd_buf[i]);
    }
    lemma_quiet(pass, part);
    assert(m.outgoing(moment).len() == 0);
    assert(packing::datagrams(m.outgoing(moment), m.config.mtu as int) =~= Seq::empty());
    assert(m.output + Seq::<Seq<u8>>::empty() =~= m.output);
}

/// Periodic updates flush at most once per interval.
pub proof fn law_update_keeps_interval(m: EngineModel, now: u32, later: u32)
    requires
        m.update_due(now),
        now <= later,
        later - now < m.config.nodelay.interval,
    ensures
        !m.updated(now).update_due(later),
{
    let a = m.updated(now);
    assert(a.last_update == now);
    assert(a.config == m.config);
}

/// A link is given up only for want of acknowledgements: no first transmission gives it up, and
/// a retransmission does exactly when it is the last that the settings allow.
pub proof fn law_retransmissions_are_allowed(m: EngineModel, seg: SegmentModel, now: u32)
    ensures
        m.pass(now).decide(seg) is First ==> !m.pass(now).fatal(seg),
        m.pass(now).decide(seg) is Timeout || m.pass(now).decide(seg) is Fast ==> (m.pass(
            now,
        ).fatal(seg) <==> m.pass(now).tried(seg).xmit - 1 >= m.config.max_retries),
{
}

/// Every timeout counts towards giving the link up, and nothing takes a count back.
pub proof fn law_timeouts_add_up(m: EngineModel, now: u32)
    ensures
        m.flushed(now).xmit_count == input::capped(
            m.xmit_count + m.pass(now).count(m.prepared(now).snd_buf, Attempt::Timeout),
        ),
        m.dead() ==> m.flushed(now).dead(),
{
}

} // verus!
