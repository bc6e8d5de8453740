//! When segments are sent, and sent again: first transmissions, timeouts that grow, and segments
//! that later acknowledgements have overtaken.
use super::flushing::Attempt;
use super::flushing::Pass;
use super::EngineModel;
use crate::config::KcpCoreConfig;
use crate::engine::control_laws;
use crate::engine::flushing;
use crate::engine::input;
use crate::engine::supply;
use crate::engine::transfer;
use crate::engine::wire_laws;
use crate::protocol::constants;
use crate::protocol::SegmentModel;
use crate::sequence;
use vstd::prelude::*;

verus! {

/// The moment `ts` has come at the time `now`: it lies on the half of the circle behind `now`.
pub open spec fn come(now: u32, ts: u32) -> bool {
    (now - ts) % 0x1_0000_0000 < 0x8000_0000
}

/// The smaller of a number and the largest that 32 bits hold.
pub open spec fn at_most_max(x: int) -> int {
    if x <= 0xffff_ffff {
        x
    } else {
        0xffff_ffff
    }
}

/// A segment in flight has run out of time.
pub open spec fn overdue(seg: SegmentModel, now: u32) -> bool {
    seg.xmit > 0 && come(now, seg.resendts)
}

/// A segment in flight has been overtaken so often that it is to be sent again at once.
pub open spec fn outrun(seg: SegmentModel, resend: u32) -> bool {
    0 < seg.xmit <= 5 && 0 < resend <= seg.fastack
}

/// Data with this number is among the segments.
pub open spec fn sends_number(segs: Seq<SegmentModel>, sn: u32) -> bool {
    exists|c: int|
        0 <= c < segs.len() && (#[trigger] segs[c]).header.cmd == 81 && segs[c].header.sn == sn
}

/// What a flush leaves of a segment in flight.
proof fn lemma_flushed_segment(m: EngineModel, now: u32, i: int)
    requires
        0 <= i < m.snd_buf.len() + m.movable(),
    ensures
        m.flushed(now).snd_buf.len() == m.snd_buf.len() + m.movable(),
        m.prepared(now).snd_buf.len() == m.snd_buf.len() + m.movable(),
        i < m.snd_buf.len() ==> m.prepared(now).snd_buf[i] == m.snd_buf[i],
        m.flushed(now).snd_buf[i] == m.pass(now).tried(m.prepared(now).snd_buf[i]),
{
    let p = m.prepared(now);
    assert(m.flushed(now).snd_buf == m.pass(now).swept(p.snd_buf));
}

/// What is due is among what is sent, with its number, its data and the time.
proof fn lemma_due_number(m: EngineModel, now: u32, i: int)
    requires
        m.wf(),
        supply::in_conversation(m),
        !m.gives_up(now),
        0 <= i < m.prepared(now).snd_buf.len(),
        !(m.pass(now).decide(m.prepared(now).snd_buf[i]) is Quiet),
    ensures
        m.outgoing(now).contains(m.pass(now).tried(m.prepared(now).snd_buf[i])),
        sends_number(m.outgoing(now), m.prepared(now).snd_buf[i].header.sn),
{
    let seg = m.prepared(now).snd_buf[i];
    let c = crate::engine::progress::lemma_due_is_sent(m, now, i);
    supply::lemma_flushed_in_conversation(m, now);
    assert(m.prepared(now).snd_buf[i].header.cmd == constants::IKCP_CMD_PUSH);
    assert(m.outgoing(now)[c] == m.pass(now).tried(seg));
    assert(m.outgoing(now)[c].header.cmd == 81);
    assert(m.outgoing(now)[c].header.sn == seg.header.sn);
}

/// Data that is sent is a segment in flight that is due.
proof fn lemma_sent_is_due(m: EngineModel, now: u32, c: int) -> (j: int)
    requires
        m.wf(),
        0 <= c < m.outgoing(now).len(),
        m.outgoing(now)[c].header.cmd == 81,
    ensures
        0 <= j < m.prepared(now).snd_buf.len(),
        m.outgoing(now)[c] == m.pass(now).tried(m.prepared(now).snd_buf[j]),
        !(m.pass(now).decide(m.prepared(now).snd_buf[j]) is Quiet),
{
    let p = m.prepared(now);
    let pass = m.pass(now);
    flushing::lemma_prepared_wf(m, now);
    flushing::lemma_reach(pass, p.snd_buf);
    let part = p.snd_buf.take(pass.reach(p.snd_buf) as int);
    assert forall|i: int| 0 <= i < part.len() implies (#[trigger] part[i]).len_matches()
        && part[i].data.len() <= m.mss() by {
        assert(p.snd_buf[i].len_matches());
    }
    wire_laws::lemma_transmitted(pass, part, m.mss());
    let control = m.control_segments(now);
    let t = pass.transmitted(part);
    if c < control.len() {
        assert(m.outgoing(now)[c] == control[c]);
        assert(control[c].header.cmd != 81);
    }
    assert(m.outgoing(now)[c] == t[c - control.len()]);
    let j = choose|j: int|
        0 <= j < part.len() && pass.tried(part[j]) == t[c - control.len()] && !(pass.decide(
            part[j],
        ) is Quiet);
    assert(part[j] == p.snd_buf[j]);
    j
}

/// What a flush sends after the control segments is data.
pub proof fn lemma_data_follows_control(m: EngineModel, now: u32, c: int)
    requires
        m.wf(),
        supply::in_conversation(m),
        m.control_segments(now).len() <= c < m.outgoing(now).len(),
    ensures
        m.outgoing(now)[c].header.cmd == 81,
        m.outgoing(now)[c].header.conv == m.conv,
{
    let p = m.prepared(now);
    let pass = m.pass(now);
    flushing::lemma_reach(pass, p.snd_buf);
    supply::lemma_flushed_in_conversation(m, now);
    let part = p.snd_buf.take(pass.reach(p.snd_buf) as int);
    let k = c - m.control_segments(now).len();
    assert(m.outgoing(now)[c] == pass.transmitted(part)[k]);
    let i = lemma_transmitted_origin(pass, part, k);
    assert(part[i] == p.snd_buf[i]);
    assert(p.snd_buf[i].header.cmd == constants::IKCP_CMD_PUSH);
}

/// Data that is sent carries the time of sending.
pub proof fn lemma_sent_time(m: EngineModel, now: u32, c: int)
    requires
        m.wf(),
        0 <= c < m.outgoing(now).len(),
        m.outgoing(now)[c].header.cmd == 81,
    ensures
        m.outgoing(now)[c].header.ts == now,
{
    let j = lemma_sent_is_due(m, now, c);
}

/// Taking in a segment leaves data of the conversation in flight.
pub proof fn lemma_absorbed_in_conversation(m: EngineModel, seg: SegmentModel, now: u32)
    requires
        supply::in_conversation(m),
    ensures
        supply::in_conversation(m.absorbed(seg, now)),
{
    let after = m.absorbed(seg, now);
    assert(after.conv == m.conv);
    assert forall|i: int| 0 <= i < after.snd_buf.len() implies (
    #[trigger] after.snd_buf[i]).header.cmd == constants::IKCP_CMD_PUSH
        && after.snd_buf[i].header.conv == after.conv by {
        lemma_absorbed_origin(m, seg, now, i);
    }
}

/// Segments in flight have different numbers.
proof fn lemma_own_number(m: EngineModel, i: int, j: int)
    requires
        m.wf(),
        0 <= i < m.snd_buf.len(),
        0 <= j < m.snd_buf.len(),
        m.snd_buf[i].header.sn == m.snd_buf[j].header.sn,
    ensures
        i == j,
{
    if i < j {
        assert(sequence::distance(m.snd_una, m.snd_buf[i].header.sn) < sequence::distance(
            m.snd_una,
            m.snd_buf[j].header.sn,
        ));
    }
    if j < i {
        assert(sequence::distance(m.snd_una, m.snd_buf[j].header.sn) < sequence::distance(
            m.snd_una,
            m.snd_buf[i].header.sn,
        ));
    }
}

/// A segment that is put in flight takes the next number, carries what waited first, is sent at
/// once, and is given the timeout of the moment; unless delay is to be avoided, an eighth more.
pub proof fn law_first_transmission(m: EngineModel, now: u32, j: int)
    requires
        m.wf(),
        supply::in_conversation(m),
        0 <= j < m.flushed(now).snd_buf.len() - m.snd_buf.len(),
    ensures
        ({
            let seg = m.flushed(now).snd_buf[m.snd_buf.len() + j];
            let extra = (seg.resendts - now - m.rtt.rto) % 0x1_0000_0000;
            &&& j < m.snd_queue.len()
            &&& seg.header.sn == (m.snd_nxt + j) % 0x1_0000_0000
            &&& seg.header.cmd == 81
            &&& seg.header.conv == m.conv
            &&& seg.header.frg == m.snd_queue[j].header.frg
            &&& seg.header.len == m.snd_queue[j].header.len
            &&& seg.data == m.snd_queue[j].data
            &&& seg.header.ts == now
            &&& seg.xmit == 1
            &&& seg.fastack == 0
            &&& seg.rto == m.rtt.rto
            &&& m.config.nodelay.nodelay ==> extra == 0
            &&& !m.config.nodelay.nodelay ==> 8 * extra <= m.rtt.rto < 8 * extra + 8
            &&& !m.gives_up(now) ==> m.outgoing(now).contains(seg)
        }),
{
    let i = m.snd_buf.len() + j;
    let p = m.prepared(now);
    assert(m.flushed(now).snd_buf.len() == p.snd_buf.len());
    lemma_flushed_segment(m, now, i);
    lemma_new_segment(m, now, j);
    lemma_first_try(m.pass(now), p.snd_buf[i]);
    if !m.gives_up(now) {
        lemma_due_number(m, now, i);
    }
}

/// What a flush puts in flight.
proof fn lemma_new_segment(m: EngineModel, now: u32, j: int)
    requires
        0 <= j < m.movable(),
    ensures
        ({
            let seg = m.prepared(now).snd_buf[m.snd_buf.len() + j];
            let old = m.snd_queue[j];
            &&& j < m.snd_queue.len()
            &&& seg.xmit == 0
            &&& seg.fastack == 0
            &&& seg.header.sn == (m.snd_nxt + j) % 0x1_0000_0000
            &&& seg.header.cmd == 81
            &&& seg.header.conv == m.conv
            &&& seg.header.frg == old.header.frg
            &&& seg.header.len == old.header.len
            &&& seg.data == old.data
        }),
{
}

/// How a first transmission is timed.
proof fn lemma_first_try(pass: Pass, seg: SegmentModel)
    requires
        seg.xmit == 0,
        pass.rto <= constants::IKCP_RTO_MAX,
    ensures
        ({
            let new = pass.tried(seg);
            let extra = (new.resendts - pass.now - pass.rto) % 0x1_0000_0000;
            &&& new.header == (crate::protocol::KcpHeader {
                ts: pass.now,
                wnd: pass.wnd,
                una: pass.una,
                ..seg.header
            })
            &&& new.data == seg.data
            &&& new.xmit == 1
            &&& new.fastack == seg.fastack
            &&& new.rto == pass.rto
            &&& pass.nodelay.nodelay ==> extra == 0
            &&& !pass.nodelay.nodelay ==> 8 * extra <= pass.rto < 8 * extra + 8
        }),
{
}

/// A segment whose time has run out is sent again, and gets a longer timeout than the one that
/// ran out: at least twice as long; where delay is to be avoided, longer by half, or by half the
/// timeout of the moment if there is no congestion control. It runs out that much later.
pub proof fn law_timeouts_back_off(m: EngineModel, now: u32, i: int)
    requires
        m.wf(),
        supply::in_conversation(m),
        0 <= i < m.snd_buf.len(),
        overdue(m.snd_buf[i], now),
    ensures
        ({
            let old = m.snd_buf[i];
            let new = m.flushed(now).snd_buf[i];
            let cfg = m.config.nodelay;
            let more = new.rto - old.rto;
            &&& new.header.sn == old.header.sn
            &&& new.data == old.data
            &&& new.header.frg == old.header.frg
            &&& new.header.ts == now
            &&& new.xmit == at_most_max(old.xmit + 1)
            &&& new.fastack == old.fastack
            &&& new.resendts == (now + new.rto) % 0x1_0000_0000
            &&& new.rto < 0xffff_ffff && !cfg.nodelay ==> more >= old.rto && more >= cfg.interval
                && (more == old.rto || more == cfg.interval)
            &&& new.rto < 0xffff_ffff && cfg.nodelay && !cfg.no_congestion_control ==> 2 * more
                <= old.rto < 2 * more + 2
            &&& new.rto < 0xffff_ffff && cfg.nodelay && cfg.no_congestion_control ==> 2 * more
                <= m.rtt.rto < 2 * more + 2
            &&& new.rto == 0xffff_ffff ==> old.rto + at_most_max(
                old.rto + cfg.interval + m.rtt.rto,
            ) >= 0xffff_ffff
            &&& old.rto >= 2 ==> new.rto > old.rto || new.rto == 0xffff_ffff
            &&& !m.gives_up(now) ==> m.outgoing(now).contains(new)
        }),
{
    lemma_flushed_segment(m, now, i);
    assert(m.pass(now).decide(m.snd_buf[i]) is Timeout);
    if !m.gives_up(now) {
        lemma_due_number(m, now, i);
    }
}

/// A segment that has been overtaken as often as the settings say is sent again at once, without
/// waiting for its time, up to its fifth transmission. Counting starts again, and its timeout
/// stays.
pub proof fn law_overtaken_is_sent_again(m: EngineModel, now: u32, i: int)
    requires
        m.wf(),
        supply::in_conversation(m),
        0 <= i < m.snd_buf.len(),
        !overdue(m.snd_buf[i], now),
        outrun(m.snd_buf[i], m.config.nodelay.resend),
    ensures
        ({
            let old = m.snd_buf[i];
            let new = m.flushed(now).snd_buf[i];
            &&& new.header.sn == old.header.sn
            &&& new.data == old.data
            &&& new.header.frg == old.header.frg
            &&& new.header.ts == now
            &&& new.xmit == old.xmit + 1
            &&& new.fastack == 0
            &&& new.rto == old.rto
            &&& new.resendts == (now + old.rto) % 0x1_0000_0000
            &&& !m.gives_up(now) ==> m.outgoing(now).contains(new)
        }),
{
    lemma_flushed_segment(m, now, i);
    assert(m.pass(now).decide(m.snd_buf[i]) is Fast);
    if !m.gives_up(now) {
        lemma_due_number(m, now, i);
    }
}

/// A segment that has been sent, still has time and has not been overtaken too often is left
/// alone: it is not sent, and nothing in it changes.
pub proof fn law_others_are_left_alone(m: EngineModel, now: u32, i: int)
    requires
        m.wf(),
        0 <= i < m.snd_buf.len(),
        m.snd_buf[i].xmit > 0,
        m.snd_buf[i].fastack < 0xffff_ffff,
        !overdue(m.snd_buf[i], now),
        !outrun(m.snd_buf[i], m.config.nodelay.resend),
    ensures
        m.flushed(now).snd_buf[i] == m.snd_buf[i],
        !sends_number(m.outgoing(now), m.snd_buf[i].header.sn),
{
    lemma_flushed_segment(m, now, i);
    assert(m.pass(now).decide(m.snd_buf[i]) is Quiet);
    if sends_number(m.outgoing(now), m.snd_buf[i].header.sn) {
        let c = choose|c: int|
            0 <= c < m.outgoing(now).len() && (#[trigger] m.outgoing(now)[c]).header.cmd == 81
                && m.outgoing(now)[c].header.sn == m.snd_buf[i].header.sn;
        let j = lemma_sent_is_due(m, now, c);
        flushing::lemma_prepared_wf(m, now);
        lemma_own_number(m.prepared(now), i, j);
    }
}

/// Data that is sent is in flight afterwards, as it was sent, and carries the time of sending. No
/// number is sent twice by one flush, and smaller numbers are sent first.
pub proof fn law_each_number_is_sent_once(m: EngineModel, now: u32, a: int, b: int)
    requires
        m.wf(),
        0 <= a < b < m.outgoing(now).len(),
        m.outgoing(now)[a].header.cmd == 81,
        m.outgoing(now)[b].header.cmd == 81,
    ensures
        m.flushed(now).snd_buf.contains(m.outgoing(now)[a]),
        m.flushed(now).snd_buf.contains(m.outgoing(now)[b]),
        m.outgoing(now)[a].header.ts == now,
        sequence::distance(m.snd_una, m.outgoing(now)[a].header.sn) < sequence::distance(
            m.snd_una,
            m.outgoing(now)[b].header.sn,
        ),
{
    let p = m.prepared(now);
    let pass = m.pass(now);
    flushing::lemma_prepared_wf(m, now);
    flushing::lemma_reach(pass, p.snd_buf);
    let part = p.snd_buf.take(pass.reach(p.snd_buf) as int);
    let control = m.control_segments(now);
    assert(m.outgoing(now) == control + pass.transmitted(part));
    assert(a >= control.len()) by {
        if a < control.len() {
            assert(m.outgoing(now)[a] == control[a]);
        }
    }
    let (i, j) = lemma_transmitted_order(pass, part, a - control.len(), b - control.len());
    assert(part[i] == p.snd_buf[i] && part[j] == p.snd_buf[j]);
    assert(sequence::distance(p.snd_una, p.snd_buf[i].header.sn) < sequence::distance(
        p.snd_una,
        p.snd_buf[j].header.sn,
    ));
    let after = m.flushed(now).snd_buf;
    assert(after == pass.swept(p.snd_buf));
    assert(after[i] == m.outgoing(now)[a]);
    assert(after[j] == m.outgoing(now)[b]);
}

/// Segments are sent in the order in which they are in flight.
proof fn lemma_transmitted_order(pass: Pass, segs: Seq<SegmentModel>, a: int, b: int) -> (r: (
    int,
    int,
))
    requires
        0 <= a < b < pass.transmitted(segs).len(),
    ensures
        0 <= r.0 < r.1 < segs.len(),
        pass.transmitted(segs)[a] == pass.tried(segs[r.0]),
        pass.transmitted(segs)[b] == pass.tried(segs[r.1]),
        !(pass.decide(segs[r.0]) is Quiet),
        !(pass.decide(segs[r.1]) is Quiet),
    decreases segs.len(),
{
    let front = segs.drop_last();
    let t = pass.transmitted(segs);
    let f = pass.transmitted(front);
    if b < f.len() {
        assert(t[a] == f[a] && t[b] == f[b]);
        let r = lemma_transmitted_order(pass, front, a, b);
        assert(segs[r.0] == front[r.0] && segs[r.1] == front[r.1]);
        r
    } else {
        assert(t[a] == f[a]);
        let i = lemma_transmitted_origin(pass, front, a);
        assert(segs[i] == front[i]);
        (i, segs.len() - 1)
    }
}

/// What is sent is a segment that is due.
proof fn lemma_transmitted_origin(pass: Pass, segs: Seq<SegmentModel>, a: int) -> (i: int)
    requires
        0 <= a < pass.transmitted(segs).len(),
    ensures
        0 <= i < segs.len(),
        pass.transmitted(segs)[a] == pass.tried(segs[i]),
        !(pass.decide(segs[i]) is Quiet),
    decreases segs.len(),
{
    let front = segs.drop_last();
    let f = pass.transmitted(front);
    if a < f.len() {
        assert(pass.transmitted(segs)[a] == f[a]);
        let i = lemma_transmitted_origin(pass, front, a);
        assert(segs[i] == front[i]);
        i
    } else {
        segs.len() - 1
    }
}

/// A flush gives the link up exactly when it sends a segment again that has been sent again as
/// often as the settings allow, counting this time, and once at least.
pub proof fn law_link_is_given_up(m: EngineModel, now: u32)
    requires
        m.wf(),
        forall|i: int|
            0 <= i < m.snd_buf.len() ==> 0 < (#[trigger] m.snd_buf[i]).xmit < 0xffff_ffff
                && m.snd_buf[i].fastack < 0xffff_ffff,
    ensures
        m.gives_up(now) <==> exists|i: int|
            0 <= i < m.snd_buf.len() && (overdue(#[trigger] m.snd_buf[i], now) || outrun(
                m.snd_buf[i],
                m.config.nodelay.resend,
            )) && m.snd_buf[i].xmit >= m.config.max_retries,
{
    let p = m.prepared(now);
    let pass = m.pass(now);
    assert forall|i: int| 0 <= i < p.snd_buf.len() implies (pass.fatal(#[trigger] p.snd_buf[i])
        <==> i < m.snd_buf.len() && (overdue(m.snd_buf[i], now) || outrun(
        m.snd_buf[i],
        m.config.nodelay.resend,
    )) && m.snd_buf[i].xmit >= m.config.max_retries) by {
        if i < m.snd_buf.len() {
            assert(p.snd_buf[i] == m.snd_buf[i]);
        } else {
            assert(p.snd_buf[i].xmit == 0);
        }
    }
    if m.gives_up(now) {
        let i = choose|i: int| 0 <= i < p.snd_buf.len() && pass.fatal(#[trigger] p.snd_buf[i]);
        assert(overdue(m.snd_buf[i], now) || outrun(m.snd_buf[i], m.config.nodelay.resend));
    }
    if exists|i: int|
        0 <= i < m.snd_buf.len() && (overdue(#[trigger] m.snd_buf[i], now) || outrun(
            m.snd_buf[i],
            m.config.nodelay.resend,
        )) && m.snd_buf[i].xmit >= m.config.max_retries {
        let i = choose|i: int|
            0 <= i < m.snd_buf.len() && (overdue(#[trigger] m.snd_buf[i], now) || outrun(
                m.snd_buf[i],
                m.config.nodelay.resend,
            )) && m.snd_buf[i].xmit >= m.config.max_retries;
        assert(pass.fatal(p.snd_buf[i]));
    }
}

/// The reach ends with the first segment that is sent for the last time.
proof fn lemma_reach_is(pass: flushing::Pass, segs: Seq<SegmentModel>, i: int)
    requires
        0 <= i < segs.len(),
        pass.fatal(segs[i]),
        forall|h: int| 0 <= h < i ==> !pass.fatal(#[trigger] segs[h]),
    ensures
        pass.reach(segs) == i + 1,
    decreases segs.len(),
{
    let front = segs.drop_last();
    if i < front.len() {
        assert(front[i] == segs[i]);
        assert forall|h: int| 0 <= h < i implies !pass.fatal(#[trigger] front[h]) by {
            assert(front[h] == segs[h]);
        }
        lemma_reach_is(pass, front, i);
        assert(pass.lost(front));
    } else {
        assert(!pass.lost(front)) by {
            assert forall|h: int| 0 <= h < front.len() implies !pass.fatal(
                #[trigger] front[h],
            ) by {
                assert(front[h] == segs[h]);
            }
        }
    }
}

/// A segment that is due is among those that are sent.
proof fn lemma_transmitted_has(pass: flushing::Pass, segs: Seq<SegmentModel>, j: int) -> (c: int)
    requires
        0 <= j < segs.len(),
        !(pass.decide(segs[j]) is Quiet),
    ensures
        0 <= c < pass.transmitted(segs).len(),
        pass.transmitted(segs)[c] == pass.tried(segs[j]),
    decreases segs.len(),
{
    let front = segs.drop_last();
    if j < front.len() {
        assert(front[j] == segs[j]);
        lemma_transmitted_has(pass, front, j)
    } else {
        pass.transmitted(front).len() as int
    }
}

/// A segment that is sent is one that is due.
proof fn lemma_transmitted_is(pass: flushing::Pass, segs: Seq<SegmentModel>, c: int) -> (j: int)
    requires
        0 <= c < pass.transmitted(segs).len(),
    ensures
        0 <= j < segs.len(),
        pass.transmitted(segs)[c] == pass.tried(segs[j]),
        !(pass.decide(segs[j]) is Quiet),
    decreases segs.len(),
{
    let front = segs.drop_last();
    if c < pass.transmitted(front).len() {
        let j = lemma_transmitted_is(pass, front, c);
        assert(front[j] == segs[j]);
        j
    } else {
        segs.len() - 1
    }
}

/// A flush that gives the link up still sends what is due, up to the first segment that has been
/// retransmitted as often as the settings allow, and that one too. It sends nothing after that.
pub proof fn law_giving_up_ends_with_the_last_try(m: EngineModel, now: u32, i: int, j: int)
    requires
        m.wf(),
        supply::in_conversation(m),
        forall|h: int|
            0 <= h < m.snd_buf.len() ==> 0 < (#[trigger] m.snd_buf[h]).xmit < 0xffff_ffff
                && m.snd_buf[h].fastack < 0xffff_ffff,
        0 <= i < m.snd_buf.len(),
        0 <= j < m.snd_buf.len(),
        due(m, now, i),
        m.snd_buf[i].xmit >= m.config.max_retries,
        forall|h: int|
            0 <= h < i ==> !(due(m, now, h) && (#[trigger] m.snd_buf[h]).xmit
                >= m.config.max_retries),
    ensures
        sends_number(m.outgoing(now), m.snd_buf[j].header.sn) <==> j <= i && due(m, now, j),
        m.gives_up(now),
{
    let p = m.prepared(now);
    let pass = m.pass(now);
    let segs = p.snd_buf;
    assert forall|h: int| 0 <= h < m.snd_buf.len() implies ({
        &&& #[trigger] segs[h] == m.snd_buf[h]
        &&& due(m, now, h) <==> !(pass.decide(segs[h]) is Quiet)
        &&& pass.fatal(segs[h]) <==> due(m, now, h) && m.snd_buf[h].xmit >= m.config.max_retries
    }) by {
        assert(m.snd_buf[h].xmit > 0);
    }
    assert(pass.fatal(segs[i]));
    assert forall|h: int| 0 <= h < i implies !pass.fatal(#[trigger] segs[h]) by {
        assert(m.snd_buf[h] == segs[h]);
    }
    lemma_reach_is(pass, segs, i);
    let part = segs.take(i + 1);
    let control = m.control_segments(now);
    let t = pass.transmitted(part);
    assert(m.outgoing(now) == control + t);
    assert(segs[j] == m.snd_buf[j]);
    let sn = m.snd_buf[j].header.sn;
    if j <= i && due(m, now, j) {
        assert(part[j] == segs[j]);
        let c = lemma_transmitted_has(pass, part, j);
        assert(m.snd_buf[j].header.cmd == constants::IKCP_CMD_PUSH);
        assert(m.outgoing(now)[control.len() + c] == t[c]);
        assert(m.outgoing(now)[control.len() + c].header.sn == sn);
    }
    if sends_number(m.outgoing(now), sn) {
        let c = choose|c: int|
            0 <= c < m.outgoing(now).len() && (#[trigger] m.outgoing(now)[c]).header.cmd == 81
                && m.outgoing(now)[c].header.sn == sn;
        if c < control.len() {
            assert(m.outgoing(now)[c] == control[c]);
            assert(control[c].header.cmd != 81);
        } else {
            assert(m.outgoing(now)[c] == t[c - control.len()]);
            let k = lemma_transmitted_is(pass, part, c - control.len());
            assert(part[k] == segs[k]);
            assert(segs[k] == m.snd_buf[k]);
            lemma_own_number(m, j, k);
        }
    }
}

/// A segment in flight is to be sent again.
pub open spec fn due(m: EngineModel, now: u32, h: int) -> bool {
    overdue(m.snd_buf[h], now) || outrun(m.snd_buf[h], m.config.nodelay.resend)
}

/// A segment that has been sent is not sent again before its time, unless it is overtaken: two
/// flushes that lie closer together than its timeout send it once.
pub proof fn law_no_second_try_before_timeout(m: EngineModel, now: u32, t: int, i: int)
    requires
        m.wf(),
        0 <= i < m.flushed(now).snd_buf.len(),
        sends_number(m.outgoing(now), m.flushed(now).snd_buf[i].header.sn),
        m.flushed(now).snd_buf[i].fastack < 0xffff_ffff,
        0 <= t < m.flushed(now).snd_buf[i].rto < 0x7000_0000,
        m.config.nodelay.resend == 0 || m.flushed(now).snd_buf[i].fastack
            < m.config.nodelay.resend,
    ensures
        ({
            let later = ((now + t) % 0x1_0000_0000) as u32;
            let after = m.flushed(now);
            &&& after.flushed(later).snd_buf[i] == after.snd_buf[i]
            &&& !sends_number(after.outgoing(later), after.snd_buf[i].header.sn)
        }),
{
    let after = m.flushed(now);
    let later = ((now + t) % 0x1_0000_0000) as u32;
    let seg = after.snd_buf[i];
    flushing::lemma_flushed_wf(m, now);
    lemma_sent_timing(m, now, i);
    lemma_not_yet(now, t, seg.resendts, (seg.resendts - now) % 0x1_0000_0000);
    assert(after.config == m.config);
    law_others_are_left_alone(after, later, i);
}

/// When a segment that is sent runs out of time.
proof fn lemma_sent_timing(m: EngineModel, now: u32, i: int)
    requires
        m.wf(),
        0 <= i < m.flushed(now).snd_buf.len(),
        sends_number(m.outgoing(now), m.flushed(now).snd_buf[i].header.sn),
        m.flushed(now).snd_buf[i].rto < 0x7000_0000,
    ensures
        ({
            let seg = m.flushed(now).snd_buf[i];
            let d = (seg.resendts - now) % 0x1_0000_0000;
            &&& seg.xmit > 0
            &&& seg.rto <= d <= seg.rto + seg.rto / 8
        }),
{
    let seg = m.flushed(now).snd_buf[i];
    assert(m.flushed(now).snd_buf.len() == m.prepared(now).snd_buf.len());
    lemma_flushed_segment(m, now, i);
    let c = choose|c: int|
        0 <= c < m.outgoing(now).len() && (#[trigger] m.outgoing(now)[c]).header.cmd == 81
            && m.outgoing(now)[c].header.sn == seg.header.sn;
    let j = lemma_sent_is_due(m, now, c);
    flushing::lemma_prepared_wf(m, now);
    lemma_own_number(m.prepared(now), i, j);
    lemma_any_try(m.pass(now), m.prepared(now).snd_buf[i]);
}

/// How a transmission is timed, whether it is the first or not.
proof fn lemma_any_try(pass: Pass, seg: SegmentModel)
    requires
        !(pass.decide(seg) is Quiet),
        pass.rto <= constants::IKCP_RTO_MAX,
        pass.tried(seg).rto < 0x7000_0000,
    ensures
        ({
            let new = pass.tried(seg);
            let d = (new.resendts - pass.now) % 0x1_0000_0000;
            &&& new.xmit > 0
            &&& new.rto <= d <= new.rto + new.rto / 8
        }),
{
    let new = pass.tried(seg);
    if pass.decide(seg) is First {
        assert(new.resendts == sequence::advanced(pass.now, pass.rto + pass.grace()));
        sequence::law_distance_of_advanced(pass.now, pass.rto + pass.grace());
    } else {
        assert(new.resendts == sequence::advanced(pass.now, new.rto as int));
        sequence::law_distance_of_advanced(pass.now, new.rto as int);
    }
}

/// A moment that lies `d` ahead has not come after less than `d`.
proof fn lemma_not_yet(now: u32, t: int, ts: u32, d: int)
    requires
        0 <= t < d,
        d < 0x8000_0000,
        (ts - now) % 0x1_0000_0000 == d,
    ensures
        !come(((now + t) % 0x1_0000_0000) as u32, ts),
{
}

/// Where a number lies, seen from another: ahead of it, or behind it where that is nearer.
pub open spec fn offset(base: u32, sn: u32) -> int {
    let d = (sn - base) % 0x1_0000_0000;
    if d < 0x8000_0000 {
        d
    } else {
        d - 0x1_0000_0000
    }
}

/// The segments are of the conversation and acknowledge nothing that covers the number.
pub open spec fn spares(segs: Seq<SegmentModel>, conv: u32, sn: u32) -> bool {
    forall|j: int|
        0 <= j < segs.len() ==> {
            let h = (#[trigger] segs[j]).header;
            &&& h.conv == conv
            &&& offset(sn, h.una) <= 0
            &&& h.una != (sn + 0x8000_0000) % 0x1_0000_0000
            &&& h.cmd == 82 ==> h.sn != sn
        }
}

/// Each acknowledged number lies near `base`, and none lies beyond `top`.
pub open spec fn acks_up_to(segs: Seq<SegmentModel>, base: u32, top: u32) -> bool {
    forall|j: int|
        0 <= j < segs.len() && (#[trigger] segs[j]).header.cmd == 82 ==> -0x4000_0000 <= offset(
            base,
            segs[j].header.sn,
        ) <= offset(base, top)
}

/// The segments acknowledge this number.
pub open spec fn acks(segs: Seq<SegmentModel>, sn: u32) -> bool {
    exists|j: int|
        0 <= j < segs.len() && (#[trigger] segs[j]).header.cmd == 82 && segs[j].header.sn == sn
}

/// A packet overtakes a segment in flight: it leaves the segment unacknowledged, and the latest
/// number that it acknowledges, `top`, has been sent and lies beyond the segment.
pub open spec fn overtakes(m: EngineModel, packet: Seq<u8>, sn: u32, top: u32) -> bool {
    let segs = input::parse_packet(packet);
    &&& packet.len() >= 24
    &&& spares(segs, m.conv, sn)
    &&& acks(segs, top)
    &&& acks_up_to(segs, m.snd_una, top)
    &&& offset(m.snd_una, sn) < offset(m.snd_una, top) < (m.snd_nxt - m.snd_una) % 0x1_0000_0000
}

/// What is not covered by an acknowledgement stays in flight as it is.
proof fn lemma_digest_spares(
    m: EngineModel,
    segs: Seq<SegmentModel>,
    newest: Option<u32>,
    now: u32,
    kept: SegmentModel,
)
    requires
        m.wf(),
        spares(segs, m.conv, kept.header.sn),
        m.snd_buf.contains(kept),
    ensures
        ({
            let d = input::digest(m, segs, newest, now);
            &&& !d.foreign
            &&& d.engine.wf()
            &&& d.engine.snd_buf.contains(kept)
            &&& d.engine.snd_nxt == m.snd_nxt
            &&& d.engine.conv == m.conv
        }),
    decreases segs.len(),
{
    if segs.len() > 0 {
        let seg = segs[0];
        let rest = segs.skip(1);
        let i = choose|i: int| 0 <= i < m.snd_buf.len() && m.snd_buf[i] == kept;
        assert(seg.header.conv == m.conv);
        control_laws::law_kept_until_acknowledged(m, seg, now, i);
        input::lemma_absorbed_wf(m, seg, now);
        assert(m.absorbed(seg, now).snd_nxt == m.snd_nxt);
        assert forall|j: int| 0 <= j < rest.len() implies ({
            let h = (#[trigger] rest[j]).header;
            &&& h.conv == m.conv
            &&& offset(kept.header.sn, h.una) <= 0
            &&& h.una != (kept.header.sn + 0x8000_0000) % 0x1_0000_0000
            &&& h.cmd == 82 ==> h.sn != kept.header.sn
        }) by {
            assert(rest[j] == segs[j + 1]);
        }
        lemma_digest_spares(
            m.absorbed(seg, now),
            rest,
            input::newest_ack(newest, seg.header),
            now,
            kept,
        );
    }
}

/// For numbers near another, to come before is to lie nearer the front.
proof fn lemma_order_by_offset(base: u32, a: u32, b: u32)
    requires
        -0x4000_0000 <= offset(base, a) < 0x4000_0000,
        -0x4000_0000 <= offset(base, b) < 0x4000_0000,
    ensures
        sequence::before(a, b) == (offset(base, a) < offset(base, b)),
        sequence::after(a, b) == (offset(base, a) > offset(base, b)),
        a == b <==> offset(base, a) == offset(base, b),
{
}

/// How the latest number goes on with one more segment.
proof fn lemma_newest_step(
    newest: Option<u32>,
    h: crate::protocol::KcpHeader,
    base: u32,
    top: u32,
)
    requires
        -0x4000_0000 <= offset(base, top) < 0x4000_0000,
        newest matches Some(x) ==> -0x4000_0000 <= offset(base, x) <= offset(base, top),
        h.cmd == 82 ==> -0x4000_0000 <= offset(base, h.sn) <= offset(base, top),
    ensures
        input::newest_ack(newest, h) matches Some(x) ==> -0x4000_0000 <= offset(base, x) <= offset(
            base,
            top,
        ),
        newest == Some(top) || (h.cmd == 82 && h.sn == top) ==> input::newest_ack(newest, h)
            == Some(top),
{
    if h.cmd == 82 {
        match newest {
            Some(x) => {
                lemma_order_by_offset(base, h.sn, x);
                lemma_order_by_offset(base, h.sn, top);
                lemma_order_by_offset(base, x, top);
            },
            None => {},
        }
    }
}

/// The latest number that a packet acknowledges.
proof fn lemma_digest_newest(
    m: EngineModel,
    segs: Seq<SegmentModel>,
    newest: Option<u32>,
    now: u32,
    base: u32,
    top: u32,
)
    requires
        m.wf(),
        forall|j: int| 0 <= j < segs.len() ==> (#[trigger] segs[j]).header.conv == m.conv,
        acks_up_to(segs, base, top),
        -0x4000_0000 <= offset(base, top) < 0x4000_0000,
        newest matches Some(x) ==> -0x4000_0000 <= offset(base, x) <= offset(base, top),
        newest == Some(top) || acks(segs, top),
    ensures
        input::digest(m, segs, newest, now).newest == Some(top),
    decreases segs.len(),
{
    if segs.len() > 0 {
        let seg = segs[0];
        let rest = segs.skip(1);
        let next = input::newest_ack(newest, seg.header);
        assert(seg.header.conv == m.conv);
        input::lemma_absorbed_wf(m, seg, now);
        assert forall|j: int| 0 <= j < rest.len() implies (#[trigger] rest[j]).header.conv
            == m.conv by {
            assert(rest[j] == segs[j + 1]);
        }
        assert(acks_up_to(rest, base, top)) by {
            assert forall|j: int|
                0 <= j < rest.len() && (#[trigger] rest[j]).header.cmd == 82 implies -0x4000_0000
                <= offset(base, rest[j].header.sn) <= offset(base, top) by {
                assert(rest[j] == segs[j + 1]);
            }
        }
        assert(seg.header.cmd == 82 ==> -0x4000_0000 <= offset(base, segs[0].header.sn) <= offset(
            base,
            top,
        ));
        lemma_newest_step(newest, seg.header, base, top);
        if newest != Some(top) {
            let j = choose|j: int|
                0 <= j < segs.len() && (#[trigger] segs[j]).header.cmd == 82 && segs[j].header.sn
                    == top;
            if j > 0 {
                assert(rest[j - 1] == segs[j]);
            }
        }
        lemma_digest_newest(m.absorbed(seg, now), rest, next, now, base, top);
    }
}

/// When nothing later than a number is acknowledged, the latest is no later.
proof fn lemma_digest_no_newer(
    m: EngineModel,
    segs: Seq<SegmentModel>,
    newest: Option<u32>,
    now: u32,
    base: u32,
    top: u32,
)
    requires
        acks_up_to(segs, base, top),
        newest matches Some(x) ==> -0x4000_0000 <= offset(base, x) <= offset(base, top),
    ensures
        input::digest(m, segs, newest, now).newest matches Some(x) ==> -0x4000_0000 <= offset(
            base,
            x,
        ) <= offset(base, top),
    decreases segs.len(),
{
    if segs.len() > 0 && segs[0].header.conv == m.conv {
        let rest = segs.skip(1);
        assert forall|j: int|
            0 <= j < rest.len() && (#[trigger] rest[j]).header.cmd == 82 implies -0x4000_0000
            <= offset(base, rest[j].header.sn) <= offset(base, top) by {
            assert(rest[j] == segs[j + 1]);
        }
        if segs[0].header.cmd == 82 {
            assert(-0x4000_0000 <= offset(base, segs[0].header.sn) <= offset(base, top));
        }
        lemma_digest_no_newer(
            m.absorbed(segs[0], now),
            rest,
            input::newest_ack(newest, segs[0].header),
            now,
            base,
            top,
        );
    }
}

/// A number between a segment in flight and the next number is in flight.
proof fn lemma_beyond(m: EngineModel, e: EngineModel, i: int, sn: u32, top: u32)
    requires
        m.wf(),
        e.wf(),
        e.snd_nxt == m.snd_nxt,
        0 <= i < e.snd_buf.len(),
        e.snd_buf[i].header.sn == sn,
        0 <= offset(m.snd_una, sn) < offset(m.snd_una, top) < (m.snd_nxt - m.snd_una)
            % 0x1_0000_0000,
    ensures
        e.outstanding(top),
        sequence::before(sn, top),
{
    assert(sequence::distance(e.snd_una, e.snd_buf[i].header.sn) < e.inflight());
    lemma_between(m.snd_una, e.snd_una, m.snd_nxt, sn, top);
}

/// Numbers between others that lie close together.
proof fn lemma_between(una: u32, later: u32, nxt: u32, sn: u32, top: u32)
    requires
        sequence::distance(una, nxt) <= 0xffff,
        sequence::distance(later, nxt) <= 0xffff,
        sequence::distance(later, sn) < sequence::distance(later, nxt),
        0 <= offset(una, sn) < offset(una, top) < sequence::distance(una, nxt),
    ensures
        !sequence::before(top, later),
        sequence::before(top, nxt),
        sequence::before(sn, top),
{
    let back = sequence::distance(sn, nxt);
    lemma_gap(una, sn, top);
    lemma_gap(una, sn, nxt);
    lemma_gap(una, top, nxt);
    lemma_gap(later, sn, nxt);
    lemma_gap_sum(later, sn, top);
    assert(sequence::distance(later, top) <= 0xffff);
    lemma_apart(sn, top);
    lemma_apart(top, nxt);
}

/// How far one number lies from another, when both are seen from a third.
proof fn lemma_gap(base: u32, a: u32, b: u32)
    requires
        sequence::distance(base, a) <= sequence::distance(base, b),
    ensures
        sequence::distance(a, b) == sequence::distance(base, b) - sequence::distance(base, a),
{
}

/// Two stretches, one after the other.
proof fn lemma_gap_sum(a: u32, b: u32, c: u32)
    requires
        sequence::distance(a, b) + sequence::distance(b, c) < 0x1_0000_0000,
    ensures
        sequence::distance(a, c) == sequence::distance(a, b) + sequence::distance(b, c),
{
}

/// What lies shortly ahead of a number comes after it.
proof fn lemma_apart(a: u32, b: u32)
    requires
        0 < sequence::distance(a, b) < 0x8000_0000,
    ensures
        sequence::before(a, b),
        !sequence::before(b, a),
{
}

/// Every packet that overtakes a segment in flight counts once for it, and changes nothing else
/// of it.
pub proof fn law_overtaking_counts(
    m: EngineModel,
    packet: Seq<u8>,
    now: u32,
    top: u32,
    i: int,
)
    requires
        m.wf(),
        0 <= i < m.snd_buf.len(),
        overtakes(m, packet, m.snd_buf[i].header.sn, top),
    ensures
        m.fed(packet, now).snd_buf.contains(
            SegmentModel {
                fastack: at_most_max(m.snd_buf[i].fastack + 1) as u32,
                ..m.snd_buf[i]
            },
        ),
{
    let kept = m.snd_buf[i];
    let segs = input::parse_packet(packet);
    let d = input::digest(m, segs, None, now);
    let e = d.engine;
    let after = m.fed(packet, now);
    assert(m.snd_buf.contains(kept));
    lemma_digest_spares(m, segs, None, now, kept);
    assert(offset(m.snd_una, top) < 0x4000_0000) by {
        assert(m.inflight() <= 0xffff);
    }
    lemma_digest_newest(m, segs, None, now, m.snd_una, top);
    let j = choose|j: int| 0 <= j < e.snd_buf.len() && e.snd_buf[j] == kept;
    assert(sequence::distance(m.snd_una, m.snd_buf[i].header.sn) < m.inflight());
    lemma_beyond(m, e, j, kept.header.sn, top);
    assert(after.snd_buf == e.fast_acked(top).snd_buf);
    assert(after.snd_buf[j] == (SegmentModel {
        fastack: at_most_max(kept.fastack + 1) as u32,
        ..kept
    }));
}

/// A number that has not been sent overtakes nothing: a packet whose latest acknowledgement is for
/// such a number leaves a segment in flight that it does not acknowledge as it is.
pub proof fn law_unsent_numbers_overtake_nothing(
    m: EngineModel,
    packet: Seq<u8>,
    now: u32,
    top: u32,
    i: int,
)
    requires
        m.wf(),
        0 <= i < m.snd_buf.len(),
        packet.len() >= 24,
        spares(input::parse_packet(packet), m.conv, m.snd_buf[i].header.sn),
        acks(input::parse_packet(packet), top),
        acks_up_to(input::parse_packet(packet), m.snd_una, top),
        (m.snd_nxt - m.snd_una) % 0x1_0000_0000 <= offset(m.snd_una, top) < 0x4000_0000,
    ensures
        m.fed(packet, now).snd_buf.contains(m.snd_buf[i]),
{
    let kept = m.snd_buf[i];
    let segs = input::parse_packet(packet);
    let d = input::digest(m, segs, None, now);
    let e = d.engine;
    let after = m.fed(packet, now);
    assert(m.snd_buf.contains(kept));
    lemma_digest_spares(m, segs, None, now, kept);
    lemma_digest_newest(m, segs, None, now, m.snd_una, top);
    lemma_not_sent(m.snd_una, m.snd_nxt, top);
    let j = choose|j: int| 0 <= j < e.snd_buf.len() && e.snd_buf[j] == kept;
    assert(!e.outstanding(top));
    assert(after.snd_buf == e.snd_buf);
    assert(after.snd_buf[j] == kept);
}

/// A number beyond what has been sent does not come before the next one.
proof fn lemma_not_sent(una: u32, nxt: u32, top: u32)
    requires
        (nxt - una) % 0x1_0000_0000 <= offset(una, top) < 0x4000_0000,
    ensures
        !sequence::before(top, nxt),
{
}

/// A packet that acknowledges nothing beyond a segment in flight, and not the segment, leaves it
/// as it is.
pub proof fn law_only_overtaking_counts(m: EngineModel, packet: Seq<u8>, now: u32, i: int)
    requires
        m.wf(),
        0 <= i < m.snd_buf.len(),
        spares(input::parse_packet(packet), m.conv, m.snd_buf[i].header.sn),
        acks_up_to(input::parse_packet(packet), m.snd_una, m.snd_buf[i].header.sn),
    ensures
        m.fed(packet, now).snd_buf.contains(m.snd_buf[i]),
{
    let kept = m.snd_buf[i];
    let segs = input::parse_packet(packet);
    let d = input::digest(m, segs, None, now);
    let e = d.engine;
    let after = m.fed(packet, now);
    assert(m.snd_buf.contains(kept));
    lemma_digest_spares(m, segs, None, now, kept);
    lemma_digest_no_newer(m, segs, None, now, m.snd_una, kept.header.sn);
    assert(sequence::distance(m.snd_una, m.snd_buf[i].header.sn) < m.inflight());
    if packet.len() >= 24 {
        let j = choose|j: int| 0 <= j < e.snd_buf.len() && e.snd_buf[j] == kept;
        match d.newest {
            Some(x) => {
                assert(m.inflight() <= 0xffff);
                lemma_order_by_offset(m.snd_una, kept.header.sn, x);
                assert(after.snd_buf == e.fast_acked(x).snd_buf);
            },
            None => {
                assert(after.snd_buf == e.snd_buf);
            },
        }
        assert(after.snd_buf[j] == kept);
    }
}

/// So many packets, each of which overtakes a segment in flight, count as often for it.
pub proof fn law_overtaking_adds_up(
    m: EngineModel,
    packets: Seq<Seq<u8>>,
    times: Seq<u32>,
    tops: Seq<u32>,
    i: int,
)
    requires
        m.wf(),
        0 <= i < m.snd_buf.len(),
        forall|k: int|
            0 <= k < packets.len() ==> overtakes(
                #[trigger] transfer::fed_all(m, packets.take(k), times),
                packets[k],
                m.snd_buf[i].header.sn,
                tops[k],
            ),
    ensures
        transfer::fed_all(m, packets, times).wf(),
        transfer::fed_all(m, packets, times).snd_buf.contains(
            SegmentModel {
                fastack: at_most_max(m.snd_buf[i].fastack + packets.len()) as u32,
                ..m.snd_buf[i]
            },
        ),
        supply::in_conversation(m) ==> supply::in_conversation(
            transfer::fed_all(m, packets, times),
        ),
        transfer::fed_all(m, packets, times).config == m.config,
    decreases packets.len(),
{
    let kept = m.snd_buf[i];
    if packets.len() == 0 {
        assert(m.snd_buf[i] == (SegmentModel {
            fastack: at_most_max(m.snd_buf[i].fastack + 0) as u32,
            ..m.snd_buf[i]
        }));
    } else {
        let front = packets.drop_last();
        let n = front.len() as int;
        let now = times[packets.len() - 1];
        assert forall|k: int| 0 <= k < front.len() implies overtakes(
            #[trigger] transfer::fed_all(m, front.take(k), times),
            front[k],
            m.snd_buf[i].header.sn,
            tops[k],
        ) by {
            assert(front.take(k) =~= packets.take(k));
            assert(front[k] == packets[k]);
        }
        law_overtaking_adds_up(m, front, times, tops, i);
        let mid = transfer::fed_all(m, front, times);
        assert(packets.take(n) =~= front);
        let seg = SegmentModel { fastack: at_most_max(kept.fastack + n) as u32, ..kept };
        let j = choose|j: int| 0 <= j < mid.snd_buf.len() && mid.snd_buf[j] == seg;
        assert(overtakes(mid, packets[n], mid.snd_buf[j].header.sn, tops[n]));
        law_overtaking_counts(mid, packets.last(), now, tops[n], j);
        input::lemma_fed_wf(mid, packets.last(), now);
        control_laws::lemma_fed_config(mid, packets.last(), now);
        if supply::in_conversation(mid) {
            supply::law_flight_is_data(
                mid.conv,
                mid.config,
                mid,
                Seq::empty(),
                packets.last(),
                now,
            );
        }
    }
}

/// Early retransmission: after as many packets have overtaken a segment as the settings say, the
/// next flush sends the segment, whether or not its time has run out.
pub proof fn law_overtaken_segments_are_resent(
    m: EngineModel,
    packets: Seq<Seq<u8>>,
    times: Seq<u32>,
    tops: Seq<u32>,
    now: u32,
    i: int,
)
    requires
        m.wf(),
        supply::in_conversation(m),
        0 <= i < m.snd_buf.len(),
        0 < m.snd_buf[i].xmit <= 5,
        0 < m.config.nodelay.resend <= packets.len(),
        forall|k: int|
            0 <= k < packets.len() ==> overtakes(
                #[trigger] transfer::fed_all(m, packets.take(k), times),
                packets[k],
                m.snd_buf[i].header.sn,
                tops[k],
            ),
        !transfer::fed_all(m, packets, times).gives_up(now),
    ensures
        sends_number(
            transfer::fed_all(m, packets, times).outgoing(now),
            m.snd_buf[i].header.sn,
        ),
{
    let after = transfer::fed_all(m, packets, times);
    law_overtaking_adds_up(m, packets, times, tops, i);
    let seg = SegmentModel {
        fastack: at_most_max(m.snd_buf[i].fastack + packets.len()) as u32,
        ..m.snd_buf[i]
    };
    let j = choose|j: int| 0 <= j < after.snd_buf.len() && after.snd_buf[j] == seg;
    assert(after.config.nodelay.resend <= seg.fastack);
    lemma_flushed_segment(after, now, j);
    assert(!(after.pass(now).decide(after.snd_buf[j]) is Quiet));
    lemma_due_number(after, now, j);
}

/// How many segments run out of time, and how many have been overtaken too often before that.
proof fn lemma_counts(pass: Pass, segs: Seq<SegmentModel>)
    requires
        forall|i: int| 0 <= i < segs.len() ==> (#[trigger] segs[i]).fastack < 0xffff_ffff,
    ensures
        pass.count(segs, Attempt::Timeout) == segs.filter(
            |s: SegmentModel| overdue(s, pass.now),
        ).len(),
        pass.count(segs, Attempt::Fast) == segs.filter(
            |s: SegmentModel| !overdue(s, pass.now) && outrun(s, pass.nodelay.resend),
        ).len(),
    decreases segs.len(),
{
    reveal(Seq::filter);
    if segs.len() > 0 {
        assert forall|i: int| 0 <= i < segs.drop_last().len() implies (
        #[trigger] segs.drop_last()[i]).fastack < 0xffff_ffff by {
            assert(segs[i].fastack < 0xffff_ffff);
        }
        lemma_counts(pass, segs.drop_last());
        assert(segs[segs.len() - 1].fastack < 0xffff_ffff);
    }
}

/// Segments that are new are none of these.
proof fn lemma_filter_new(a: Seq<SegmentModel>, b: Seq<SegmentModel>, f: spec_fn(SegmentModel) -> bool)
    requires
        forall|i: int| 0 <= i < b.len() ==> !f(#[trigger] b[i]),
    ensures
        (a + b).filter(f) == a.filter(f),
    decreases b.len(),
{
    reveal(Seq::filter);
    if b.len() == 0 {
        assert(a + b =~= a);
    } else {
        assert((a + b).drop_last() =~= a + b.drop_last());
        assert(!f(b[b.len() - 1]));
        assert((a + b).last() == b[b.len() - 1]);
        assert forall|i: int| 0 <= i < b.drop_last().len() implies !f(
            #[trigger] b.drop_last()[i],
        ) by {
            assert(!f(b[i]));
        }
        lemma_filter_new(a, b.drop_last(), f);
    }
}

/// The statistics count every retransmission: those for want of time, which also count towards
/// giving the link up, those of overtaken segments, and the datagrams.
pub proof fn law_retransmissions_are_counted(m: EngineModel, now: u32)
    requires
        m.wf(),
        forall|i: int| 0 <= i < m.snd_buf.len() ==> (#[trigger] m.snd_buf[i]).fastack < 0xffff_ffff,
    ensures
        ({
            let after = m.flushed(now);
            let late = m.snd_buf.filter(|s: SegmentModel| overdue(s, now)).len();
            let overtaken = m.snd_buf.filter(
                |s: SegmentModel| !overdue(s, now) && outrun(s, m.config.nodelay.resend),
            ).len();
            &&& after.stats.retransmissions == (m.stats.retransmissions + late)
                % 0x1_0000_0000_0000_0000
            &&& after.stats.fast_retransmissions == (m.stats.fast_retransmissions + overtaken)
                % 0x1_0000_0000_0000_0000
            &&& after.xmit_count == at_most_max(m.xmit_count + late)
            &&& after.stats.packets_sent == (m.stats.packets_sent + (after.output.len()
                - m.output.len())) % 0x1_0000_0000_0000_0000
            &&& after.stats.bytes_sent == m.stats.bytes_sent
            &&& after.stats.bytes_received == m.stats.bytes_received
            &&& after.stats.packets_received == m.stats.packets_received
        }),
{
    let p = m.prepared(now);
    let pass = m.pass(now);
    let new = p.snd_buf.skip(m.snd_buf.len() as int);
    let late = |s: SegmentModel| overdue(s, now);
    let overtaken = |s: SegmentModel| !overdue(s, now) && outrun(s, m.config.nodelay.resend);
    assert(p.snd_buf =~= m.snd_buf + new);
    assert forall|i: int| 0 <= i < new.len() implies (#[trigger] new[i]).xmit == 0 && new[i].fastack
        == 0 by {}
    assert forall|i: int| 0 <= i < p.snd_buf.len() implies (#[trigger] p.snd_buf[i]).fastack
        < 0xffff_ffff by {
        if i < m.snd_buf.len() {
            assert(p.snd_buf[i] == m.snd_buf[i]);
        } else {
            assert(p.snd_buf[i] == new[i - m.snd_buf.len()]);
        }
    }
    lemma_counts(pass, p.snd_buf);
    lemma_filter_new(m.snd_buf, new, late);
    lemma_filter_new(m.snd_buf, new, overtaken);
    lemma_flush_stats(m, now);
}

/// What a flush does to the statistics.
proof fn lemma_flush_stats(m: EngineModel, now: u32)
    ensures
        ({
            let after = m.flushed(now);
            let late = m.pass(now).count(m.prepared(now).snd_buf, Attempt::Timeout);
            let overtaken = m.pass(now).count(m.prepared(now).snd_buf, Attempt::Fast);
            &&& after.stats.retransmissions == (m.stats.retransmissions + late)
                % 0x1_0000_0000_0000_0000
            &&& after.stats.fast_retransmissions == (m.stats.fast_retransmissions + overtaken)
                % 0x1_0000_0000_0000_0000
            &&& after.xmit_count == at_most_max(m.xmit_count + late)
            &&& after.stats.packets_sent == (m.stats.packets_sent + (after.output.len()
                - m.output.len())) % 0x1_0000_0000_0000_0000
            &&& after.stats.bytes_sent == m.stats.bytes_sent
            &&& after.stats.bytes_received == m.stats.bytes_received
            &&& after.stats.packets_received == m.stats.packets_received
        }),
{
}

/// Every segment that has been sent has a timeout of at least 30 milliseconds.
pub open spec fn paced(m: EngineModel) -> bool {
    forall|i: int|
        0 <= i < m.snd_buf.len() && (#[trigger] m.snd_buf[i]).xmit > 0 ==> m.snd_buf[i].rto >= 30
}

/// What is in flight after segments of the peer was in flight before.
pub proof fn lemma_digest_origin(
    m: EngineModel,
    segs: Seq<SegmentModel>,
    newest: Option<u32>,
    now: u32,
    i: int,
)
    requires
        0 <= i < input::digest(m, segs, newest, now).engine.snd_buf.len(),
    ensures
        m.snd_buf.contains(input::digest(m, segs, newest, now).engine.snd_buf[i]),
    decreases segs.len(),
{
    let e = input::digest(m, segs, newest, now).engine;
    if segs.len() > 0 && segs[0].header.conv == m.conv {
        let next = m.absorbed(segs[0], now);
        lemma_digest_origin(next, segs.skip(1), input::newest_ack(newest, segs[0].header), now, i);
        let j = choose|j: int| 0 <= j < next.snd_buf.len() && next.snd_buf[j] == e.snd_buf[i];
        lemma_absorbed_origin(m, segs[0], now, j);
    } else {
        assert(e.snd_buf[i] == m.snd_buf[i]);
    }
}

/// What is in flight after a segment of the peer was in flight before.
pub proof fn lemma_absorbed_origin(m: EngineModel, seg: SegmentModel, now: u32, i: int)
    requires
        0 <= i < m.absorbed(seg, now).snd_buf.len(),
    ensures
        m.snd_buf.contains(m.absorbed(seg, now).snd_buf[i]),
{
    let after = m.absorbed(seg, now);
    let t = m.told(seg.header);
    let k = input::lead(m.snd_buf, seg.header.una) as int;
    input::lemma_lead(m.snd_buf, seg.header.una);
    input::lemma_without_from(t.snd_buf, seg.header.sn);
    if after.snd_buf == t.snd_buf {
        assert(t.snd_buf[i] == m.snd_buf[i + k]);
    } else {
        let w = input::without(t.snd_buf, seg.header.sn);
        assert(after.snd_buf == w);
        let j = choose|j: int| 0 <= j < t.snd_buf.len() && t.snd_buf[j] == w[i];
        assert(t.snd_buf[j] == m.snd_buf[j + k]);
    }
}

/// Nothing that an engine does gives a segment a timeout of less than 30 milliseconds.
pub proof fn law_timeouts_stay_long(
    conv: u32,
    config: KcpCoreConfig,
    m: EngineModel,
    data: Seq<u8>,
    packet: Seq<u8>,
    now: u32,
)
    requires
        m.wf(),
        paced(m),
    ensures
        paced(EngineModel::fresh(conv, config, now)),
        paced(m.queued(data)),
        paced(m.received()),
        paced(m.nudged(now)),
        paced(m.flushed(now)),
        paced(m.updated(now)),
        paced(m.fed(packet, now)),
{
    lemma_flush_paced(m, now);
    lemma_flush_paced(EngineModel { last_update: now, ..m }, now);
    let a = m.queued(data);
    assert(a.snd_buf == m.snd_buf);
    let b = m.received();
    assert(b.snd_buf == m.snd_buf);
    let c = m.nudged(now);
    assert(c.snd_buf == m.snd_buf);
    let after = m.fed(packet, now);
    let e = input::digest(m, input::parse_packet(packet), None, now).engine;
    assert forall|i: int|
        0 <= i < after.snd_buf.len() && (#[trigger] after.snd_buf[i]).xmit > 0 implies
        after.snd_buf[i].rto >= 30 by {
        if packet.len() >= 24 {
            assert(after.snd_buf.len() == e.snd_buf.len());
            assert(after.snd_buf[i].rto == e.snd_buf[i].rto && after.snd_buf[i].xmit
                == e.snd_buf[i].xmit);
            lemma_digest_origin(m, input::parse_packet(packet), None, now, i);
            let j = choose|j: int| 0 <= j < m.snd_buf.len() && m.snd_buf[j] == e.snd_buf[i];
            assert(m.snd_buf[j].xmit > 0);
        }
    }
}

/// A flush gives no segment a timeout of less than 30 milliseconds.
proof fn lemma_flush_paced(m: EngineModel, now: u32)
    requires
        m.wf(),
        paced(m),
    ensures
        paced(m.flushed(now)),
{
    let after = m.flushed(now);
    let p = m.prepared(now);
    assert forall|i: int|
        0 <= i < after.snd_buf.len() && (#[trigger] after.snd_buf[i]).xmit > 0 implies
        after.snd_buf[i].rto >= 30 by {
        assert(after.snd_buf.len() == p.snd_buf.len());
        lemma_flushed_segment(m, now, i);
        if i < m.snd_buf.len() {
            assert(m.snd_buf[i].xmit > 0 ==> m.snd_buf[i].rto >= 30);
        } else {
            assert(p.snd_buf[i].xmit == 0);
        }
    }
}

} // verus!
