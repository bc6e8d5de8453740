//! What acknowledgements do to what is in flight, and what data does to what is acknowledged.
use super::EngineModel;
use crate::engine::input;
use crate::engine::receiving;
use crate::engine::retransmission;
use crate::protocol::SegmentModel;
use crate::sequence;
use vstd::prelude::*;

verus! {

/// A segment with this number is among them.
pub open spec fn has_number(segs: Seq<SegmentModel>, sn: u32) -> bool {
    exists|i: int| 0 <= i < segs.len() && (#[trigger] segs[i]).header.sn == sn
}

/// Leaving a number out leaves no segment with it.
proof fn lemma_without_lacks(buf: Seq<SegmentModel>, sn: u32)
    ensures
        !has_number(input::without(buf, sn), sn),
    decreases buf.len(),
{
    if buf.len() > 0 {
        let front = buf.drop_last();
        lemma_without_lacks(front, sn);
        let w = input::without(buf, sn);
        let f = input::without(front, sn);
        assert forall|i: int| 0 <= i < w.len() implies (#[trigger] w[i]).header.sn != sn by {
            if i < f.len() {
                assert(w[i] == f[i]);
            }
        }
    }
}

/// A number in flight is one that can be acknowledged.
proof fn lemma_flight_outstanding(m: EngineModel, i: int)
    requires
        m.wf(),
        0 <= i < m.snd_buf.len(),
    ensures
        m.outstanding(m.snd_buf[i].header.sn),
{
    assert(sequence::distance(m.snd_una, m.snd_buf[i].header.sn) < m.inflight());
}

/// An acknowledged segment is no longer in flight.
pub proof fn law_acknowledged_segment_leaves(m: EngineModel, seg: SegmentModel, now: u32)
    requires
        m.wf(),
        seg.header.cmd == 82,
    ensures
        !has_number(m.absorbed(seg, now).snd_buf, seg.header.sn),
{
    let t = m.told(seg.header);
    let sn = seg.header.sn;
    let after = m.absorbed(seg, now);
    input::lemma_told_wf(m, seg.header);
    lemma_without_lacks(t.snd_buf, sn);
    if !t.outstanding(sn) {
        assert(after.snd_buf == t.snd_buf);
        assert forall|i: int| 0 <= i < t.snd_buf.len() implies (#[trigger] t.snd_buf[i]).header.sn
            != sn by {
            lemma_flight_outstanding(t, i);
        }
    } else {
        assert(after.snd_buf == input::without(t.snd_buf, sn));
    }
}

/// Leading segments end where the first one does not come before.
proof fn lemma_lead_ends(buf: Seq<SegmentModel>, una: u32)
    ensures
        input::lead(buf, una) < buf.len() ==> !sequence::before(
            buf[input::lead(buf, una) as int].header.sn,
            una,
        ),
    decreases buf.len(),
{
    if buf.len() > 0 && sequence::before(buf[0].header.sn, una) {
        lemma_lead_ends(buf.skip(1), una);
    }
}

/// Whatever a segment of the peer is, it says what the peer expects next: everything before that
/// is no longer in flight.
pub proof fn law_everything_before_una_leaves(
    m: EngineModel,
    seg: SegmentModel,
    now: u32,
    i: int,
)
    requires
        m.wf(),
        (seg.header.una - m.snd_una) % 0x1_0000_0000 <= (m.snd_nxt - m.snd_una) % 0x1_0000_0000,
        0 <= i < m.absorbed(seg, now).snd_buf.len(),
    ensures
        (m.absorbed(seg, now).snd_buf[i].header.sn - m.snd_una) % 0x1_0000_0000 >= (seg.header.una
            - m.snd_una) % 0x1_0000_0000,
{
    let una = seg.header.una;
    let after = m.absorbed(seg, now);
    let t = m.told(seg.header);
    let k = input::lead(m.snd_buf, una) as int;
    input::lemma_lead(m.snd_buf, una);
    lemma_lead_ends(m.snd_buf, una);
    input::lemma_without_from(t.snd_buf, seg.header.sn);
    assert forall|j: int| 0 <= j < t.snd_buf.len() implies sequence::distance(
        m.snd_una,
        (#[trigger] t.snd_buf[j]).header.sn,
    ) >= sequence::distance(m.snd_una, una) by {
        assert(t.snd_buf[j] == m.snd_buf[j + k]);
        assert(sequence::distance(m.snd_una, m.snd_buf[k].header.sn) < m.inflight());
        receiving::lemma_before_by_distance(m.snd_una, m.snd_buf[k].header.sn, una);
        if j > 0 {
            assert(sequence::distance(m.snd_una, m.snd_buf[k].header.sn) < sequence::distance(
                m.snd_una,
                m.snd_buf[j + k].header.sn,
            ));
        }
    }
    if after.snd_buf != t.snd_buf {
        let w = input::without(t.snd_buf, seg.header.sn);
        assert(after.snd_buf == w);
        let j = choose|j: int| 0 <= j < t.snd_buf.len() && t.snd_buf[j] == w[i];
        assert(sequence::distance(m.snd_una, t.snd_buf[j].header.sn) >= sequence::distance(
            m.snd_una,
            una,
        ));
    }
}

/// Every acknowledgement in a packet counts, up to a segment of another conversation: none of the
/// numbers that it acknowledges is in flight afterwards.
pub proof fn law_acknowledged_numbers_leave(m: EngineModel, packet: Seq<u8>, now: u32, k: int)
    requires
        m.wf(),
        packet.len() >= 24,
        ({
            let segs = input::parse_packet(packet);
            &&& forall|j: int| 0 <= j <= k ==> (#[trigger] segs[j]).header.conv == m.conv
            &&& 0 <= k < segs.len()
            &&& segs[k].header.cmd == 82
        }),
    ensures
        !has_number(m.fed(packet, now).snd_buf, input::parse_packet(packet)[k].header.sn),
{
    let segs = input::parse_packet(packet);
    let after = m.fed(packet, now);
    let e = input::digest(m, segs, None, now).engine;
    lemma_digest_leaves(m, segs, None, now, k);
    assert forall|i: int| 0 <= i < after.snd_buf.len() implies (
    #[trigger] after.snd_buf[i]).header.sn != segs[k].header.sn by {
        assert(after.snd_buf.len() == e.snd_buf.len());
        assert(after.snd_buf[i].header == e.snd_buf[i].header);
    }
}

/// A number that one of the segments acknowledges is not in flight after them.
proof fn lemma_digest_leaves(
    m: EngineModel,
    segs: Seq<SegmentModel>,
    newest: Option<u32>,
    now: u32,
    k: int,
)
    requires
        m.wf(),
        forall|j: int| 0 <= j <= k ==> (#[trigger] segs[j]).header.conv == m.conv,
        0 <= k < segs.len(),
        segs[k].header.cmd == 82,
    ensures
        !has_number(input::digest(m, segs, newest, now).engine.snd_buf, segs[k].header.sn),
    decreases segs.len(),
{
    let sn = segs[k].header.sn;
    let rest = segs.skip(1);
    let next = m.absorbed(segs[0], now);
    let newer = input::newest_ack(newest, segs[0].header);
    let e = input::digest(m, segs, newest, now).engine;
    assert(segs[0].header.conv == m.conv);
    input::lemma_absorbed_wf(m, segs[0], now);
    if k > 0 {
        assert forall|j: int| 0 <= j <= k - 1 implies (#[trigger] rest[j]).header.conv
            == next.conv by {
            assert(rest[j] == segs[j + 1]);
        }
        assert(rest[k - 1] == segs[k]);
        lemma_digest_leaves(next, rest, newer, now, k - 1);
    } else {
        law_acknowledged_segment_leaves(m, segs[0], now);
        assert forall|i: int| 0 <= i < e.snd_buf.len() implies (#[trigger] e.snd_buf[i]).header.sn
            != sn by {
            retransmission::lemma_digest_origin(next, rest, newer, now, i);
            let j = choose|j: int| 0 <= j < next.snd_buf.len() && next.snd_buf[j] == e.snd_buf[i];
            assert(next.snd_buf[j].header.sn != sn);
        }
    }
}

/// Data is acknowledged when it lies before the end of the window, also when it has come before,
/// and with the number and the time that it carries. Data beyond the window is neither
/// acknowledged nor kept, and nothing but data is acknowledged.
pub proof fn law_data_is_acknowledged_within_the_window(
    m: EngineModel,
    seg: SegmentModel,
    now: u32,
)
    requires
        m.wf(),
        m.config.rcv_wnd < 0x4000_0000,
        -0x4000_0000 < retransmission::offset(m.rcv_nxt, seg.header.sn) < 0x4000_0000,
    ensures
        ({
            let after = m.absorbed(seg, now);
            let place = retransmission::offset(m.rcv_nxt, seg.header.sn);
            let owed = seg.header.cmd == 81 && place < m.config.rcv_wnd;
            &&& owed ==> after.ack_list == m.ack_list.push((seg.header.sn, seg.header.ts))
            &&& !owed ==> after.ack_list == m.ack_list
            &&& !owed || place < 0 ==> after.rcv_queue == m.rcv_queue && after.rcv_buf == m.rcv_buf
                && after.rcv_nxt == m.rcv_nxt
        }),
{
    lemma_window_end(m.rcv_nxt, m.wnd.rcv as int, seg.header.sn);
}

/// Where a number lies, seen from the end of a window.
proof fn lemma_window_end(nxt: u32, wnd: int, sn: u32)
    requires
        0 <= wnd < 0x4000_0000,
        -0x4000_0000 < retransmission::offset(nxt, sn) < 0x4000_0000,
    ensures
        sequence::before(sn, sequence::advanced(nxt, wnd)) == (retransmission::offset(nxt, sn)
            < wnd),
        sequence::before(sn, nxt) == (retransmission::offset(nxt, sn) < 0),
{
}

/// Data that is due goes to the application's queue, as far as there is room, together with what
/// came early and is due after it; nothing overtakes it, and nothing is kept twice.
pub proof fn law_due_data_moves_on(m: EngineModel, seg: SegmentModel, now: u32)
    requires
        m.wf(),
        seg.header.cmd == 81,
        seg.header.sn == m.rcv_nxt,
        0 < m.config.rcv_wnd <= 0x8000_0000,
        m.rcv_queue.len() < m.config.rcv_wnd,
        !has_number(m.rcv_buf, m.rcv_nxt),
    ensures
        ({
            let after = m.absorbed(seg, now);
            &&& after.rcv_queue.len() > m.rcv_queue.len()
            &&& after.rcv_queue[m.rcv_queue.len() as int] == seg
            &&& after.rcv_queue.take(m.rcv_queue.len() as int) == m.rcv_queue
            &&& after.rcv_nxt == (m.rcv_nxt + (after.rcv_queue.len() - m.rcv_queue.len()))
                % 0x1_0000_0000
            &&& after.rcv_queue.len() + after.rcv_buf.len() == m.rcv_queue.len() + m.rcv_buf.len()
                + 1
        }),
{
    lemma_due_data_is_kept(m, seg, now);
    let t = m.told(seg.header);
    let a = EngineModel { ack_list: t.ack_list.push((seg.header.sn, seg.header.ts)), ..t };
    let mid = EngineModel { rcv_buf: m.rcv_buf.insert(0, seg), ..a };
    lemma_pumped(mid, seg);
}

/// Data that is due is put before what came early.
proof fn lemma_due_data_is_kept(m: EngineModel, seg: SegmentModel, now: u32)
    requires
        m.wf(),
        seg.header.cmd == 81,
        seg.header.sn == m.rcv_nxt,
        0 < m.config.rcv_wnd <= 0x8000_0000,
        !has_number(m.rcv_buf, m.rcv_nxt),
    ensures
        ({
            let t = m.told(seg.header);
            let a = EngineModel { ack_list: t.ack_list.push((seg.header.sn, seg.header.ts)), ..t };
            m.absorbed(seg, now) == (EngineModel {
                rcv_buf: m.rcv_buf.insert(0, seg),
                ..a
            }).pumped()
        }),
{
    let t = m.told(seg.header);
    let a = EngineModel { ack_list: t.ack_list.push((seg.header.sn, seg.header.ts)), ..t };
    let nxt = m.rcv_nxt;
    lemma_next_is_awaited(nxt, m.wnd.rcv as int);
    assert(a.awaits(nxt));
    assert(!receiving::holds(a.rcv_buf, nxt)) by {
        assert forall|i: int| 0 <= i < a.rcv_buf.len() implies (
        #[trigger] a.rcv_buf[i]).header.sn != nxt by {
            assert(m.rcv_buf[i].header.sn != nxt);
        }
    }
    assert(receiving::slot(a.rcv_buf, nxt, nxt) == 0) by {
        lemma_first_slot(a.rcv_buf, nxt);
    }
}

/// What is due next lies before the end of the window.
proof fn lemma_next_is_awaited(nxt: u32, wnd: int)
    requires
        0 < wnd <= 0x8000_0000,
    ensures
        sequence::before(nxt, sequence::advanced(nxt, wnd)),
        !sequence::before(nxt, nxt),
{
}

/// Nothing lies before what is due next.
proof fn lemma_first_slot(buf: Seq<SegmentModel>, nxt: u32)
    ensures
        receiving::slot(buf, nxt, nxt) == 0,
    decreases buf.len(),
{
    if buf.len() > 0 {
        lemma_first_slot(buf.drop_last(), nxt);
    }
}

/// The segment at the front goes on to the queue, if it is due and there is room.
proof fn lemma_pumped(m: EngineModel, seg: SegmentModel)
    requires
        m.rcv_buf.len() > 0,
        m.rcv_buf[0] == seg,
        seg.header.sn == m.rcv_nxt,
        m.rcv_queue.len() < m.wnd.rcv,
    ensures
        ({
            let after = m.pumped();
            let n = m.rcv_queue.len() as int;
            &&& after.rcv_queue.len() > n
            &&& after.rcv_queue[n] == seg
            &&& after.rcv_queue.take(n) == m.rcv_queue
            &&& after.rcv_nxt == (m.rcv_nxt + (after.rcv_queue.len() - n)) % 0x1_0000_0000
            &&& after.rcv_queue.len() + after.rcv_buf.len() == n + m.rcv_buf.len()
        }),
{
    let after = m.pumped();
    let n = m.rcv_queue.len() as int;
    let r = receiving::run_len(m.rcv_buf, m.rcv_nxt, m.room()) as int;
    receiving::lemma_run_len(m.rcv_buf, m.rcv_nxt, m.room());
    assert(r >= 1);
    assert(after.rcv_queue == m.rcv_queue + m.rcv_buf.take(r));
    assert(after.rcv_queue[n] == m.rcv_buf.take(r)[0]);
    assert(after.rcv_queue.take(n) =~= m.rcv_queue);
}

/// What is in the buffer is in the queue or the buffer after what is due has moved on.
proof fn lemma_pumped_keeps(m: EngineModel, k: int)
    requires
        0 <= k < m.rcv_buf.len(),
    ensures
        m.pumped().rcv_queue.contains(m.rcv_buf[k]) || m.pumped().rcv_buf.contains(m.rcv_buf[k]),
        m.pumped().rcv_queue.len() + m.pumped().rcv_buf.len() == m.rcv_queue.len()
            + m.rcv_buf.len(),
{
    let r = receiving::run_len(m.rcv_buf, m.rcv_nxt, m.room()) as int;
    receiving::lemma_run_len(m.rcv_buf, m.rcv_nxt, m.room());
    let after = m.pumped();
    if k < r {
        assert(after.rcv_queue[m.rcv_queue.len() + k] == m.rcv_buf[k]);
    } else {
        assert(after.rcv_buf[k - r] == m.rcv_buf[k]);
    }
}

/// Data within the window is kept, whether it is due or early, unless it is there already; and
/// what came early before it is kept too.
pub proof fn law_data_within_the_window_is_kept(
    m: EngineModel,
    seg: SegmentModel,
    now: u32,
    k: int,
)
    requires
        m.wf(),
        seg.header.cmd == 81,
        m.config.rcv_wnd < 0x4000_0000,
        0 <= retransmission::offset(m.rcv_nxt, seg.header.sn) < m.config.rcv_wnd,
        !has_number(m.rcv_buf, seg.header.sn),
    ensures
        ({
            let after = m.absorbed(seg, now);
            &&& after.rcv_queue.contains(seg) || after.rcv_buf.contains(seg)
            &&& 0 <= k < m.rcv_buf.len() ==> after.rcv_queue.contains(m.rcv_buf[k])
                || after.rcv_buf.contains(m.rcv_buf[k])
            &&& after.rcv_queue.len() + after.rcv_buf.len() == m.rcv_queue.len() + m.rcv_buf.len()
                + 1
        }),
{
    let sn = seg.header.sn;
    let t = m.told(seg.header);
    let a = EngineModel { ack_list: t.ack_list.push((sn, seg.header.ts)), ..t };
    lemma_window_end(m.rcv_nxt, m.wnd.rcv as int, sn);
    assert(a.awaits(sn));
    assert(!receiving::holds(a.rcv_buf, sn)) by {
        assert forall|i: int| 0 <= i < a.rcv_buf.len() implies (
        #[trigger] a.rcv_buf[i]).header.sn != sn by {
            assert(m.rcv_buf[i].header.sn != sn);
        }
    }
    let p = receiving::slot(a.rcv_buf, a.rcv_nxt, sn) as int;
    receiving::lemma_slot(a.rcv_buf, a.rcv_nxt, sn);
    let mid = EngineModel { rcv_buf: a.rcv_buf.insert(p, seg), ..a };
    assert(m.absorbed(seg, now) == mid.pumped());
    assert(mid.rcv_buf[p] == seg);
    lemma_pumped_keeps(mid, p);
    if 0 <= k < m.rcv_buf.len() {
        let q = if k < p {
            k
        } else {
            k + 1
        };
        assert(mid.rcv_buf[q] == m.rcv_buf[k]);
        lemma_pumped_keeps(mid, q);
    }
}

/// Nothing that is due is left behind: after data within the window, and after a message has been
/// taken, what comes first in the buffer is not due, or the queue is full.
pub proof fn law_nothing_due_is_left_behind(m: EngineModel, seg: SegmentModel, now: u32)
    requires
        m.wf(),
        seg.header.cmd == 81,
        m.config.rcv_wnd < 0x4000_0000,
        0 <= retransmission::offset(m.rcv_nxt, seg.header.sn) < m.config.rcv_wnd,
    ensures
        ({
            let after = m.absorbed(seg, now);
            after.rcv_buf.len() == 0 || after.rcv_queue.len() >= m.config.rcv_wnd
                || after.rcv_buf[0].header.sn != after.rcv_nxt
        }),
        ({
            let after = m.received();
            after.rcv_buf.len() == 0 || after.rcv_queue.len() >= m.config.rcv_wnd
                || after.rcv_buf[0].header.sn != after.rcv_nxt
        }),
{
    let sn = seg.header.sn;
    let t = m.told(seg.header);
    let a = EngineModel { ack_list: t.ack_list.push((sn, seg.header.ts)), ..t };
    lemma_window_end(m.rcv_nxt, m.wnd.rcv as int, sn);
    assert(a.awaits(sn));
    let p = receiving::slot(a.rcv_buf, a.rcv_nxt, sn) as int;
    let mid = if receiving::holds(a.rcv_buf, sn) {
        a
    } else {
        EngineModel { rcv_buf: a.rcv_buf.insert(p, seg), ..a }
    };
    assert(m.absorbed(seg, now) == mid.pumped());
    lemma_pumped_leaves_nothing(mid);
    let rest = m.rcv_queue.skip(receiving::message_len(m.rcv_queue) as int);
    lemma_pumped_leaves_nothing(EngineModel { rcv_queue: rest, ..m });
}

/// What is due moves on until nothing is due or the queue is full.
proof fn lemma_pumped_leaves_nothing(m: EngineModel)
    ensures
        ({
            let after = m.pumped();
            after.rcv_buf.len() == 0 || after.rcv_queue.len() >= m.wnd.rcv
                || after.rcv_buf[0].header.sn != after.rcv_nxt
        }),
{
    let r = receiving::run_len(m.rcv_buf, m.rcv_nxt, m.room()) as int;
    receiving::lemma_run_len(m.rcv_buf, m.rcv_nxt, m.room());
    lemma_run_stops(m.rcv_buf, m.rcv_nxt, m.room());
    let after = m.pumped();
    if after.rcv_buf.len() > 0 {
        assert(after.rcv_buf[0] == m.rcv_buf[r]);
    }
}

/// A run goes as far as it can.
proof fn lemma_run_stops(buf: Seq<SegmentModel>, nxt: u32, room: int)
    ensures
        ({
            let r = receiving::run_len(buf, nxt, room) as int;
            r >= buf.len() || r >= room || buf[r].header.sn != sequence::advanced(nxt, r)
        }),
    decreases buf.len(),
{
    if buf.len() > 0 && room > 0 && buf[0].header.sn == nxt {
        let r = receiving::run_len(buf.skip(1), sequence::advanced(nxt, 1), room - 1) as int;
        lemma_run_stops(buf.skip(1), sequence::advanced(nxt, 1), room - 1);
        receiving::lemma_advanced_twice(nxt, 1, r);
    } else {
        assert(sequence::advanced(nxt, 0) == nxt);
    }
}

/// The first number that is not acknowledged is that of the first segment in flight, and the next
/// number to be sent where none is; whatever comes in.
pub proof fn law_first_unacknowledged_number(m: EngineModel, seg: SegmentModel, now: u32)
    requires
        m.wf(),
    ensures
        ({
            let after = m.absorbed(seg, now);
            &&& after.snd_buf.len() == 0 ==> after.snd_una == m.snd_nxt
            &&& after.snd_buf.len() > 0 ==> after.snd_una == after.snd_buf[0].header.sn
            &&& after.snd_nxt == m.snd_nxt
            &&& (after.snd_una - m.snd_una) % 0x1_0000_0000 <= (m.snd_nxt - m.snd_una)
                % 0x1_0000_0000
        }),
{
    input::lemma_absorbed_wf(m, seg, now);
    let after = m.absorbed(seg, now);
    if after.snd_buf.len() > 0 {
        retransmission::lemma_absorbed_origin(m, seg, now, 0);
        let j = choose|j: int| 0 <= j < m.snd_buf.len() && m.snd_buf[j] == after.snd_buf[0];
        assert(sequence::distance(m.snd_una, m.snd_buf[j].header.sn) < m.inflight());
    }
}

} // verus!
