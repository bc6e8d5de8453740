//! A flush that gets through delivers what the receiver lacks, and an answer that gets through
//! clears the sender, whatever was lost, repeated or out of order before.
use super::EngineModel;
use crate::engine::control_laws;
use crate::engine::delivery;
use crate::engine::flushing;
use crate::engine::input;
use crate::engine::receiving;
use crate::engine::supply;
use crate::engine::transfer;
use crate::engine::wire_laws;
use crate::protocol::constants;
use crate::protocol::SegmentModel;
use crate::sequence;
use vstd::prelude::*;

verus! {

/// A data segment of the script that is within the window is one that the receiver has from
/// then on.
proof fn lemma_absorbed_gains(
    m: EngineModel,
    seg: SegmentModel,
    now: u32,
    base: u32,
    script: Seq<(u8, Seq<u8>)>,
    taken: int,
    k: int,
)
    requires
        m.wf(),
        m.follows(base, script, taken),
        script.len() - m.progress(taken) <= m.wnd.rcv <= sequence::half_circle(),
        seg.header.cmd == constants::IKCP_CMD_PUSH,
        delivery::scripted(seg, base, script, k),
    ensures
        m.absorbed(seg, now).has(base, taken, k),
{
    let n = m.progress(taken);
    let sn = seg.header.sn;
    let t = m.told(seg.header);
    let a = EngineModel { ack_list: t.ack_list.push((sn, seg.header.ts)), ..t };
    assert(a.receive_wf());
    if k < n {
        supply::lemma_absorbed_has(m, seg, now, base, taken, k);
    } else {
        lemma_within_window(base, n, k, m.wnd.rcv as int);
        supply::lemma_stored_has(a, seg, base, taken, k);
        assert(m.absorbed(seg, now) == a.stored(seg));
    }
}

/// A segment that is due now or later, and less than a window away, is within the window.
proof fn lemma_within_window(base: u32, n: int, k: int, rcv: int)
    requires
        0 <= n <= k < n + rcv,
        rcv <= sequence::half_circle(),
    ensures
        ({
            let nxt = sequence::advanced(base, n);
            let sn = sequence::advanced(base, k);
            &&& sequence::before(sn, sequence::advanced(nxt, rcv))
            &&& !sequence::before(sn, nxt)
        }),
{
    let nxt = sequence::advanced(base, n);
    let sn = sequence::advanced(base, k);
    receiving::lemma_advanced_twice(base, n, k - n);
    sequence::law_distance_of_advanced(nxt, k - n);
    delivery::lemma_behind(nxt, rcv, sn, k - n);
}

/// Of the segments that are taken in, the receiver has every one that is of the script.
proof fn lemma_digest_gains(
    m: EngineModel,
    segs: Seq<SegmentModel>,
    newest: Option<u32>,
    now: u32,
    base: u32,
    script: Seq<(u8, Seq<u8>)>,
    taken: int,
    i: int,
    k: int,
)
    requires
        m.wf(),
        m.follows(base, script, taken),
        script.len() - m.progress(taken) <= m.wnd.rcv <= sequence::half_circle(),
        delivery::all_genuine(segs, base, script),
        forall|j: int| 0 <= j < segs.len() ==> (#[trigger] segs[j]).header.conv == m.conv,
        0 <= i < segs.len(),
        segs[i].header.cmd == constants::IKCP_CMD_PUSH,
        delivery::scripted(segs[i], base, script, k),
    ensures
        input::digest(m, segs, newest, now).engine.has(base, taken, k),
    decreases segs.len(),
{
    assert(segs[0].header.conv == m.conv);
    let next = m.absorbed(segs[0], now);
    let rest = segs.skip(1);
    let newer = input::newest_ack(newest, segs[0].header);
    assert(segs[0].header.cmd == constants::IKCP_CMD_PUSH ==> delivery::genuine(
        segs[0],
        base,
        script,
    ));
    delivery::lemma_absorbed_follows(m, segs[0], now, base, script, taken);
    input::lemma_absorbed_wf(m, segs[0], now);
    supply::lemma_absorbed_frame(m, segs[0], now);
    supply::lemma_rest_genuine(segs, base, script);
    if i == 0 {
        lemma_absorbed_gains(m, segs[0], now, base, script, taken, k);
        supply::lemma_digest_has(next, rest, newer, now, base, script, taken, k);
    } else {
        if m.progress(taken) > 0 {
            supply::lemma_absorbed_has(m, segs[0], now, base, taken, 0);
        }
        assert forall|j: int| 0 <= j < rest.len() implies (#[trigger] rest[j]).header.conv
            == next.conv by {
            assert(rest[j] == segs[j + 1]);
        }
        assert(rest[i - 1] == segs[i]);
        lemma_digest_gains(next, rest, newer, now, base, script, taken, i - 1, k);
    }
}

/// Packets of the sender, one after the other: the receiver stays on the script, keeps what it
/// has, and has every segment of the script that is among them.
pub proof fn lemma_fed_all_gains(
    b: EngineModel,
    packets: Seq<Seq<u8>>,
    times: Seq<u32>,
    base: u32,
    script: Seq<(u8, Seq<u8>)>,
    taken: int,
)
    requires
        b.wf(),
        b.follows(base, script, taken),
        b.caught_up(),
        script.len() - b.progress(taken) <= b.wnd.rcv <= sequence::half_circle(),
        delivery::all_genuine(wire_laws::unpacked(packets), base, script),
        forall|j: int|
            0 <= j < wire_laws::unpacked(packets).len() ==> (#[trigger] wire_laws::unpacked(
                packets,
            )[j]).header.conv == b.conv,
    ensures
        ({
            let after = transfer::fed_all(b, packets, times);
            let segs = wire_laws::unpacked(packets);
            &&& after.wf()
            &&& after.follows(base, script, taken)
            &&& after.caught_up()
            &&& after.progress(taken) >= b.progress(taken)
            &&& after.wnd.rcv == b.wnd.rcv
            &&& after.conv == b.conv
            &&& forall|k: int|
                0 <= k < script.len() && (#[trigger] b.has(base, taken, k)) ==> after.has(
                    base,
                    taken,
                    k,
                )
            &&& forall|i: int, k: int|
                0 <= i < segs.len() && segs[i].header.cmd == constants::IKCP_CMD_PUSH
                    && #[trigger] delivery::scripted(segs[i], base, script, k) ==> after.has(
                    base,
                    taken,
                    k,
                )
        }),
    decreases packets.len(),
{
    if packets.len() > 0 {
        let front = packets.drop_last();
        let now = times[packets.len() - 1];
        let packet = packets.last();
        let before = wire_laws::unpacked(front);
        let last = input::parse_packet(packet);
        let segs = wire_laws::unpacked(packets);
        assert(segs == before + last);
        assert(delivery::all_genuine(before, base, script)) by {
            assert forall|i: int|
                0 <= i < before.len() && (#[trigger] before[i]).header.cmd
                    == constants::IKCP_CMD_PUSH implies delivery::genuine(
                before[i],
                base,
                script,
            ) by {
                assert(segs[i] == before[i]);
            }
        }
        assert(delivery::all_genuine(last, base, script)) by {
            assert forall|i: int|
                0 <= i < last.len() && (#[trigger] last[i]).header.cmd
                    == constants::IKCP_CMD_PUSH implies delivery::genuine(
                last[i],
                base,
                script,
            ) by {
                assert(segs[before.len() + i] == last[i]);
            }
        }
        assert forall|j: int| 0 <= j < before.len() implies (#[trigger] before[j]).header.conv
            == b.conv by {
            assert(segs[j] == before[j]);
        }
        lemma_fed_all_gains(b, front, times, base, script, taken);
        let mid = transfer::fed_all(b, front, times);
        let after = transfer::fed_all(b, packets, times);
        assert(after == mid.fed(packet, now));
        assert forall|j: int| 0 <= j < last.len() implies (#[trigger] last[j]).header.conv
            == mid.conv by {
            assert(segs[before.len() + j] == last[j]);
        }
        lemma_fed_gains(mid, packet, now, base, script, taken);
        assert forall|i: int, k: int|
            0 <= i < segs.len() && segs[i].header.cmd == constants::IKCP_CMD_PUSH
                && #[trigger] delivery::scripted(segs[i], base, script, k) implies after.has(
            base,
            taken,
            k,
        ) by {
            if i < before.len() {
                assert(segs[i] == before[i]);
                assert(mid.has(base, taken, k));
            } else {
                assert(segs[i] == last[i - before.len()]);
            }
        }
    }
}

/// One packet of the sender: the receiver stays on the script, keeps what it has, and has every
/// segment of the script that is in it.
proof fn lemma_fed_gains(
    m: EngineModel,
    packet: Seq<u8>,
    now: u32,
    base: u32,
    script: Seq<(u8, Seq<u8>)>,
    taken: int,
)
    requires
        m.wf(),
        m.follows(base, script, taken),
        m.caught_up(),
        script.len() - m.progress(taken) <= m.wnd.rcv <= sequence::half_circle(),
        delivery::all_genuine(input::parse_packet(packet), base, script),
        forall|j: int|
            0 <= j < input::parse_packet(packet).len() ==> (#[trigger] input::parse_packet(
                packet,
            )[j]).header.conv == m.conv,
    ensures
        ({
            let after = m.fed(packet, now);
            let segs = input::parse_packet(packet);
            &&& after.wf()
            &&& after.follows(base, script, taken)
            &&& after.caught_up()
            &&& after.progress(taken) >= m.progress(taken)
            &&& after.wnd.rcv == m.wnd.rcv
            &&& after.conv == m.conv
            &&& forall|k: int|
                0 <= k < script.len() && (#[trigger] m.has(base, taken, k)) ==> after.has(
                    base,
                    taken,
                    k,
                )
            &&& forall|i: int, k: int|
                0 <= i < segs.len() && segs[i].header.cmd == constants::IKCP_CMD_PUSH
                    && #[trigger] delivery::scripted(segs[i], base, script, k) ==> after.has(
                    base,
                    taken,
                    k,
                )
        }),
{
    let segs = input::parse_packet(packet);
    let after = m.fed(packet, now);
    let e = input::digest(m, segs, None, now).engine;
    delivery::law_packets_follow_script(m, packet, now, base, script, taken);
    input::lemma_fed_wf(m, packet, now);
    supply::lemma_fed_receive_side(m, packet, now);
    lemma_digest_caught_up(m, segs, None, now, base, script, taken);
    assert forall|k: int|
        0 <= k < script.len() && (#[trigger] m.has(base, taken, k)) implies after.has(
        base,
        taken,
        k,
    ) by {
        supply::law_receiving_loses_nothing(m, packet, now, base, script, taken, k);
    }
    assert forall|i: int, k: int|
        0 <= i < segs.len() && segs[i].header.cmd == constants::IKCP_CMD_PUSH
            && #[trigger] delivery::scripted(segs[i], base, script, k) implies after.has(
        base,
        taken,
        k,
    ) by {
        lemma_digest_gains(m, segs, None, now, base, script, taken, i, k);
    }
}

/// Taking in segments of the script never sets a receiver back, and leaves nothing waiting that
/// is due.
proof fn lemma_digest_caught_up(
    m: EngineModel,
    segs: Seq<SegmentModel>,
    newest: Option<u32>,
    now: u32,
    base: u32,
    script: Seq<(u8, Seq<u8>)>,
    taken: int,
)
    requires
        m.wf(),
        m.follows(base, script, taken),
        m.caught_up(),
        delivery::all_genuine(segs, base, script),
    ensures
        ({
            let e = input::digest(m, segs, newest, now).engine;
            &&& e.caught_up()
            &&& e.progress(taken) >= m.progress(taken)
            &&& e.conv == m.conv
            &&& e.wnd.rcv == m.wnd.rcv
        }),
    decreases segs.len(),
{
    if segs.len() > 0 && segs[0].header.conv == m.conv {
        let seg = segs[0];
        assert(seg.header.cmd == constants::IKCP_CMD_PUSH ==> delivery::genuine(
            segs[0],
            base,
            script,
        ));
        delivery::lemma_absorbed_follows(m, seg, now, base, script, taken);
        input::lemma_absorbed_wf(m, seg, now);
        supply::lemma_absorbed_frame(m, seg, now);
        lemma_absorbed_caught_up(m, seg, now, base, taken);
        supply::lemma_rest_genuine(segs, base, script);
        lemma_digest_caught_up(
            m.absorbed(seg, now),
            segs.skip(1),
            input::newest_ack(newest, seg.header),
            now,
            base,
            script,
            taken,
        );
    }
}

/// Taking in a segment never sets a receiver back, and leaves nothing waiting that is due.
proof fn lemma_absorbed_caught_up(
    m: EngineModel,
    seg: SegmentModel,
    now: u32,
    base: u32,
    taken: int,
)
    requires
        m.wf(),
        m.stands(base, taken),
        m.caught_up(),
    ensures
        m.absorbed(seg, now).caught_up(),
        m.absorbed(seg, now).progress(taken) >= m.progress(taken),
{
    let n = m.progress(taken);
    let t = m.told(seg.header);
    let a = EngineModel { ack_list: t.ack_list.push((seg.header.sn, seg.header.ts)), ..t };
    assert(a.receive_wf());
    let after = m.absorbed(seg, now);
    if seg.header.cmd == constants::IKCP_CMD_PUSH && after != t && after != a {
        assert(after == a.stored(seg));
        lemma_stored_caught_up(a, seg);
    }
}

/// Taking in a data segment leaves nothing waiting that is due, and takes nothing out of the
/// application's queue.
proof fn lemma_stored_caught_up(m: EngineModel, seg: SegmentModel)
    requires
        m.receive_wf(),
        m.caught_up(),
    ensures
        m.stored(seg).caught_up(),
        m.stored(seg).rcv_queue.len() >= m.rcv_queue.len(),
{
    let sn = seg.header.sn;
    if m.awaits(sn) {
        let mid = if receiving::holds(m.rcv_buf, sn) {
            m
        } else {
            EngineModel {
                rcv_buf: m.rcv_buf.insert(
                    receiving::slot(m.rcv_buf, m.rcv_nxt, sn) as int,
                    seg,
                ),
                ..m
            }
        };
        assert(m.stored(seg) == mid.pumped());
        receiving::lemma_run_len(mid.rcv_buf, mid.rcv_nxt, mid.room());
        delivery::lemma_run_ends(mid.rcv_buf, mid.rcv_nxt, mid.room());
    }
}

/// Everything in flight that a receiver lacks is sent by a flush at the time `now`.
pub open spec fn lacking_is_due(
    s: EngineModel,
    b: EngineModel,
    now: u32,
    base: u32,
    len: int,
    taken: int,
) -> bool {
    let p = s.prepared(now);
    forall|i: int|
        0 <= i < p.snd_buf.len() && s.pass(now).decide(#[trigger] p.snd_buf[i]) is Quiet ==> b.has(
            base,
            taken,
            len - sequence::distance(p.snd_buf[i].header.sn, p.snd_nxt),
        )
}

/// A segment that the receiver lacks is among those that the flush sends.
proof fn lemma_lacking_is_sent(
    s: EngineModel,
    b: EngineModel,
    now: u32,
    base: u32,
    script: Seq<(u8, Seq<u8>)>,
    taken: int,
    k: int,
) -> (i: int)
    requires
        s.wf(),
        s.records(base, script),
        supply::in_conversation(s),
        !s.gives_up(now),
        lacking_is_due(s, b, now, base, s.script_after(script).len() as int, taken),
        0 <= k < s.script_after(script).len(),
        s.script_after(script).len() - k < sequence::circle(),
        s.prepared(now).keeps(base, k),
        !b.has(base, taken, k),
    ensures
        0 <= i < s.outgoing(now).len(),
        s.outgoing(now)[i].header.cmd == constants::IKCP_CMD_PUSH,
        delivery::scripted(
            wire_laws::as_read(s.outgoing(now))[i],
            base,
            s.script_after(script),
            k,
        ),
{
    let p = s.prepared(now);
    let pass = s.pass(now);
    let longer = s.script_after(script);
    let len = longer.len() as int;
    let sn = sequence::advanced(base, k);
    delivery::lemma_prepared_records(s, now, base, script);
    supply::lemma_flushed_in_conversation(s, now);
    let j = choose|j: int| 0 <= j < p.snd_buf.len() && (#[trigger] p.snd_buf[j]).header.sn == sn;
    let seg = p.snd_buf[j];
    delivery::lemma_recorded_genuine(p, j, base, longer);
    let d = sequence::distance(seg.header.sn, p.snd_nxt);
    receiving::lemma_advanced_twice(base, k, len - k);
    sequence::law_distance_of_advanced(sn, len - k);
    assert(len - d == k);
    assert(!(pass.decide(p.snd_buf[j]) is Quiet));
    let i = lemma_due_is_sent(s, now, j);
    let sent = s.outgoing(now)[i];
    assert(sent.header.sn == seg.header.sn && delivery::payload(sent) == delivery::payload(seg));
    assert(wire_laws::as_read(s.outgoing(now))[i].header == sent.header);
    i
}

/// A segment that is due is among those that a flush sends, unless the flush gives the link up.
pub proof fn lemma_due_is_sent(s: EngineModel, now: u32, j: int) -> (i: int)
    requires
        !s.gives_up(now),
        0 <= j < s.prepared(now).snd_buf.len(),
        !(s.pass(now).decide(s.prepared(now).snd_buf[j]) is Quiet),
    ensures
        0 <= i < s.outgoing(now).len(),
        s.outgoing(now)[i] == s.pass(now).tried(s.prepared(now).snd_buf[j]),
{
    let buf = s.prepared(now).snd_buf;
    let pass = s.pass(now);
    flushing::lemma_reach(pass, buf);
    assert(buf.take(buf.len() as int) =~= buf);
    control_laws::lemma_due_transmitted(pass, buf, j);
    let t = pass.transmitted(buf);
    let c = choose|c: int| 0 <= c < t.len() && t[c] == pass.tried(buf[j]);
    let i = s.control_segments(now).len() + c;
    assert(s.outgoing(now)[i] == t[c]);
    i
}

/// A receiver that has everything of the script, and room for it, has put everything in order.
pub proof fn lemma_all_in_order(
    b: EngineModel,
    base: u32,
    script: Seq<(u8, Seq<u8>)>,
    taken: int,
)
    requires
        b.wf(),
        b.follows(base, script, taken),
        b.caught_up(),
        script.len() - taken <= b.wnd.rcv,
        forall|k: int| 0 <= k < script.len() ==> #[trigger] b.has(base, taken, k),
    ensures
        b.progress(taken) == script.len(),
{
    let n = b.progress(taken);
    if n < script.len() {
        assert(b.has(base, taken, n));
        let i = choose|i: int|
            0 <= i < b.rcv_buf.len() && (#[trigger] b.rcv_buf[i]).header.sn == b.rcv_nxt;
        assert(sequence::distance(b.rcv_nxt, b.rcv_nxt) == 0);
        if i > 0 {
            assert(sequence::distance(b.rcv_nxt, b.rcv_buf[0].header.sn) < sequence::distance(
                b.rcv_nxt,
                b.rcv_buf[i].header.sn,
            ));
        }
        assert(b.room() > 0);
        assert(false);
    }
}

/// A flush that gets through delivers everything: when the sender sends all that the receiver
/// lacks, and the receiver has room for it, the receiver has the whole script in order. It does
/// not matter in which order the datagrams come and which of them are repeated, nor what was
/// lost, repeated or out of order before.
pub proof fn law_flush_delivers(
    s: EngineModel,
    b: EngineModel,
    packets: Seq<Seq<u8>>,
    now: u32,
    times: Seq<u32>,
    base: u32,
    script: Seq<(u8, Seq<u8>)>,
    taken: int,
)
    requires
        s.wf(),
        b.wf(),
        s.conv == b.conv,
        supply::in_conversation(s),
        s.records(base, script),
        b.follows(base, script, taken),
        b.caught_up(),
        supply::supplied(s, b, base, script.len() as int, taken),
        b.wnd.rcv <= sequence::half_circle(),
        s.script_after(script).len() - b.progress(taken) <= b.room(),
        !s.gives_up(now),
        lacking_is_due(s, b, now, base, s.script_after(script).len() as int, taken),
        wire_laws::reorders(packets, wire_laws::added(s, now)),
    ensures
        ({
            let longer = s.script_after(script);
            let after = transfer::fed_all(b, packets, times);
            &&& after.wf()
            &&& after.follows(base, longer, taken)
            &&& after.caught_up()
            &&& after.progress(taken) == longer.len()
            &&& after.conv == b.conv
            &&& delivery::payloads(after.rcv_queue) == longer.subrange(taken, longer.len() as int)
        }),
{
    let longer = s.script_after(script);
    let more = delivery::payloads(s.snd_queue.take(s.movable()));
    let after = transfer::fed_all(b, packets, times);
    let read = wire_laws::as_read(s.outgoing(now));
    let segs = wire_laws::unpacked(packets);
    assert(longer == script + more);
    delivery::law_script_grows(b, base, script, more, taken);
    supply::law_flush_keeps_supply(s, b, now, base, script, taken);
    lemma_reordered_flush(s, packets, now, base, script);
    lemma_fed_all_gains(b, packets, times, base, longer, taken);
    assert forall|k: int| 0 <= k < longer.len() implies #[trigger] after.has(base, taken, k) by {
        if !b.has(base, taken, k) {
            assert(s.prepared(now).keeps(base, k));
            let i = lemma_lacking_is_sent(s, b, now, base, script, taken, k);
            wire_laws::law_flush_output(s, now);
            let j = wire_laws::lemma_drawn_segment(wire_laws::added(s, now), packets, i);
            assert(segs[j] == read[i]);
            assert(delivery::scripted(segs[j], base, longer, k));
        }
    }
    lemma_all_in_order(after, base, longer, taken);
}

/// Datagrams of a flush, in whatever order and however often, hold data of the script alone, and
/// segments of the conversation alone.
proof fn lemma_reordered_flush(
    s: EngineModel,
    packets: Seq<Seq<u8>>,
    now: u32,
    base: u32,
    script: Seq<(u8, Seq<u8>)>,
)
    requires
        s.wf(),
        supply::in_conversation(s),
        s.records(base, script),
        wire_laws::drawn_from(packets, wire_laws::added(s, now)),
    ensures
        delivery::all_genuine(wire_laws::unpacked(packets), base, s.script_after(script)),
        forall|j: int|
            0 <= j < wire_laws::unpacked(packets).len() ==> (#[trigger] wire_laws::unpacked(
                packets,
            )[j]).header.conv == s.conv,
{
    let longer = s.script_after(script);
    let read = wire_laws::as_read(s.outgoing(now));
    let segs = wire_laws::unpacked(packets);
    delivery::law_flush_sends_script(s, now, base, script);
    wire_laws::law_flush_output(s, now);
    assert forall|j: int| 0 <= j < segs.len() implies (#[trigger] segs[j]).header.conv == s.conv
        && (segs[j].header.cmd == constants::IKCP_CMD_PUSH ==> delivery::genuine(
        segs[j],
        base,
        longer,
    )) by {
        let i = wire_laws::lemma_drawn_segment(packets, wire_laws::added(s, now), j);
        supply::lemma_outgoing_conv(s, now, i);
        assert(read[i] == segs[j]);
    }
}

/// An answer clears the sender: when the receiver has everything in order, any datagrams of a
/// flush of its own, one at least, leave the sender with nothing in flight. It does not matter
/// which they are, in which order they come and how often.
pub proof fn law_answer_clears(
    s: EngineModel,
    b: EngineModel,
    packets: Seq<Seq<u8>>,
    now: u32,
    times: Seq<u32>,
    base: u32,
    script: Seq<(u8, Seq<u8>)>,
    taken: int,
)
    requires
        s.wf(),
        b.wf(),
        s.conv == b.conv,
        supply::in_conversation(b),
        s.records(base, script),
        b.follows(base, script, taken),
        b.progress(taken) == script.len(),
        packets.len() > 0,
        wire_laws::drawn_from(packets, wire_laws::added(b, now)),
    ensures
        transfer::fed_all(s, packets, times).snd_buf.len() == 0,
        transfer::fed_all(s, packets, times).snd_queue == s.snd_queue,
{
    let una = s.snd_nxt;
    let sent = wire_laws::added(b, now);
    wire_laws::law_flush_output(b, now);
    wire_laws::law_outgoing_tells_window(b, now);
    let read = wire_laws::as_read(b.outgoing(now));
    let segs = wire_laws::unpacked(packets);
    assert(segs.len() > 0) by {
        assert(sent.contains(packets[packets.len() - 1]));
        let q = choose|q: int| 0 <= q < sent.len() && sent[q] == packets[packets.len() - 1];
        assert(input::parse_packet(sent[q]).len() > 0);
    }
    assert forall|j: int| 0 <= j < segs.len() implies (#[trigger] segs[j]).header.una == una
        && segs[j].header.conv == s.conv by {
        let i = wire_laws::lemma_drawn_segment(packets, sent, j);
        assert(read[i] == segs[j]);
        assert(b.outgoing(now)[i].header.una == b.rcv_nxt);
        supply::lemma_outgoing_conv(b, now, i);
    }
    lemma_flight_before(s);
    transfer::lemma_fed_covering(s, packets, times, una);
}

/// Everything in flight comes before the next number.
proof fn lemma_flight_before(s: EngineModel)
    requires
        s.wf(),
    ensures
        transfer::covered(s, s.snd_nxt),
{
    assert forall|i: int| 0 <= i < s.snd_buf.len() implies sequence::before(
        (#[trigger] s.snd_buf[i]).header.sn,
        s.snd_nxt,
    ) by {
        let sn = s.snd_buf[i].header.sn;
        assert(sequence::distance(s.snd_una, sn) < s.inflight());
        sequence::law_advanced_by_distance(s.snd_una, s.snd_nxt);
        delivery::lemma_behind(
            s.snd_una,
            s.inflight(),
            sn,
            sequence::distance(s.snd_una, sn),
        );
    }
}

/// Data within the window is answered: it is added to the acknowledgements that are owed, and
/// a flush sends something as long as any is owed.
pub proof fn law_data_is_answered(m: EngineModel, seg: SegmentModel, now: u32, t: u32)
    requires
        m.wf(),
        seg.header.cmd == constants::IKCP_CMD_PUSH,
        sequence::before(
            seg.header.sn,
            sequence::advanced(m.rcv_nxt, m.wnd.rcv as int),
        ),
    ensures
        m.absorbed(seg, now).ack_list == m.ack_list.push((seg.header.sn, seg.header.ts)),
        m.absorbed(seg, now).outgoing(t).len() > 0,
{
    let after = m.absorbed(seg, now);
    assert(after.ack_list == m.ack_list.push((seg.header.sn, seg.header.ts)));
    assert(after.ack_segments().len() > 0);
}

/// Packets leave data of the conversation in flight.
proof fn lemma_fed_all_in_conversation(m: EngineModel, packets: Seq<Seq<u8>>, times: Seq<u32>)
    requires
        supply::in_conversation(m),
    ensures
        supply::in_conversation(transfer::fed_all(m, packets, times)),
    decreases packets.len(),
{
    if packets.len() > 0 {
        let now = times[packets.len() - 1];
        lemma_fed_all_in_conversation(m, packets.drop_last(), times);
        let mid = transfer::fed_all(m, packets.drop_last(), times);
        supply::law_flight_is_data(mid.conv, mid.config, mid, Seq::empty(), packets.last(), now);
    }
}

/// A round trip that gets through completes the exchange: the receiver has the whole script in
/// order, and the sender has nothing in flight any more. The datagrams of the sender may come in
/// whatever order and however often; of the answer, any datagram will do.
pub proof fn law_round_trip_completes(
    s: EngineModel,
    b: EngineModel,
    packets: Seq<Seq<u8>>,
    now: u32,
    times: Seq<u32>,
    answer: Seq<Seq<u8>>,
    back: u32,
    ends: Seq<u32>,
    base: u32,
    script: Seq<(u8, Seq<u8>)>,
    taken: int,
)
    requires
        s.wf(),
        b.wf(),
        s.conv == b.conv,
        supply::in_conversation(s),
        supply::in_conversation(b),
        s.records(base, script),
        b.follows(base, script, taken),
        b.caught_up(),
        supply::supplied(s, b, base, script.len() as int, taken),
        b.wnd.rcv <= sequence::half_circle(),
        s.script_after(script).len() - b.progress(taken) <= b.room(),
        !s.gives_up(now),
        lacking_is_due(s, b, now, base, s.script_after(script).len() as int, taken),
        wire_laws::reorders(packets, wire_laws::added(s, now)),
        answer.len() > 0,
        wire_laws::drawn_from(
            answer,
            wire_laws::added(transfer::fed_all(b, packets, times), back),
        ),
    ensures
        ({
            let longer = s.script_after(script);
            let after = transfer::fed_all(b, packets, times);
            let cleared = transfer::fed_all(s.flushed(now), answer, ends);
            &&& delivery::payloads(after.rcv_queue) == longer.subrange(taken, longer.len() as int)
            &&& cleared.snd_buf.len() == 0
            &&& cleared.snd_queue == s.flushed(now).snd_queue
        }),
{
    let longer = s.script_after(script);
    law_flush_delivers(s, b, packets, now, times, base, script, taken);
    delivery::law_flush_sends_script(s, now, base, script);
    flushing::lemma_flushed_wf(s, now);
    lemma_fed_all_in_conversation(b, packets, times);
    let after = transfer::fed_all(b, packets, times);
    law_answer_clears(s.flushed(now), after, answer, back, ends, base, longer, taken);
}

} // verus!
