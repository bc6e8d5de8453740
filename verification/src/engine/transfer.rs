//! From one application to the other: a message survives fragmentation, and between two new
//! engines it arrives and is acknowledged.
use super::flushing::Pass;
use super::EngineModel;
use crate::config::KcpCoreConfig;
use crate::engine;
use crate::engine::delivery;
use crate::engine::flushing;
use crate::engine::input;
use crate::engine::receiving;
use crate::engine::sending;
use crate::engine::wire_laws;
use crate::protocol::constants;
use crate::protocol::SegmentModel;
use crate::sequence;
use vstd::prelude::*;

verus! {

/// The pieces, one after the other.
pub open spec fn concat(pieces: Seq<Seq<u8>>) -> Seq<u8>
    decreases pieces.len(),
{
    if pieces.len() == 0 {
        Seq::empty()
    } else {
        concat(pieces.drop_last()) + pieces.last()
    }
}

/// A piece in front of others.
proof fn lemma_concat_front(first: Seq<u8>, rest: Seq<Seq<u8>>)
    ensures
        concat(seq![first] + rest) == first + concat(rest),
    decreases rest.len(),
{
    let all = seq![first] + rest;
    if rest.len() == 0 {
        assert(all.drop_last() =~= Seq::empty());
        assert(concat(all.drop_last()) =~= Seq::empty());
        assert(concat(all) =~= first + concat(rest));
    } else {
        lemma_concat_front(first, rest.drop_last());
        assert(all.drop_last() =~= seq![first] + rest.drop_last());
        assert(concat(all) =~= first + concat(rest));
    }
}

/// Cutting data into pieces loses nothing and adds nothing.
pub proof fn law_chunks_join(data: Seq<u8>, mss: int)
    requires
        mss > 0,
    ensures
        concat(sending::chunks(data, mss)) == data,
    decreases data.len(),
{
    if data.len() == 0 {
        assert(concat(sending::chunks(data, mss)) =~= data);
    } else if data.len() <= mss {
        let one = seq![data];
        assert(one.drop_last() =~= Seq::empty());
        assert(concat(one.drop_last()) =~= Seq::empty());
        assert(concat(one) =~= data);
    } else {
        law_chunks_join(data.skip(mss), mss);
        lemma_concat_front(data.take(mss), sending::chunks(data.skip(mss), mss));
        assert(data.take(mss) + data.skip(mss) =~= data);
    }
}

/// What is joined depends on the payloads alone.
proof fn lemma_joined_by_payload(a: Seq<SegmentModel>, b: Seq<SegmentModel>)
    requires
        delivery::payloads(a) == delivery::payloads(b),
    ensures
        receiving::joined(a) == receiving::joined(b),
    decreases a.len(),
{
    assert(a.len() == delivery::payloads(a).len());
    assert(b.len() == delivery::payloads(b).len());
    if a.len() > 0 {
        assert(delivery::payloads(a.drop_last()) =~= delivery::payloads(a).drop_last());
        assert(delivery::payloads(b.drop_last()) =~= delivery::payloads(b).drop_last());
        lemma_joined_by_payload(a.drop_last(), b.drop_last());
        assert(delivery::payloads(a)[a.len() - 1] == delivery::payloads(b)[b.len() - 1]);
    }
}

/// Segments that carry the pieces, joined, are the pieces, joined.
proof fn lemma_joined_pieces(segs: Seq<SegmentModel>, pieces: Seq<Seq<u8>>)
    requires
        segs.len() == pieces.len(),
        forall|i: int| 0 <= i < segs.len() ==> (#[trigger] segs[i]).data == pieces[i],
    ensures
        receiving::joined(segs) == concat(pieces),
    decreases segs.len(),
{
    if segs.len() > 0 {
        let front = segs.drop_last();
        assert forall|i: int| 0 <= i < front.len() implies (#[trigger] front[i]).data
            == pieces.drop_last()[i] by {
            assert(segs[i].data == pieces[i]);
        }
        lemma_joined_pieces(front, pieces.drop_last());
        assert(segs[segs.len() - 1].data == pieces[pieces.len() - 1]);
    }
}

/// The fragments of a message, joined, are the message.
pub proof fn law_fragments_join(conv: u32, data: Seq<u8>, mss: int, stream: bool)
    requires
        mss > 0,
    ensures
        receiving::joined(sending::fragments(conv, sending::chunks(data, mss), stream)) == data,
{
    let pieces = sending::chunks(data, mss);
    lemma_joined_pieces(sending::fragments(conv, pieces, stream), pieces);
    law_chunks_join(data, mss);
}

/// Where the first message of a queue ends.
proof fn lemma_message_ends(queue: Seq<SegmentModel>, n: int)
    requires
        0 < n <= queue.len(),
        forall|i: int| 0 <= i < n - 1 ==> (#[trigger] queue[i]).header.frg != 0,
        queue[n - 1].header.frg == 0,
    ensures
        receiving::message_len(queue) == n,
    decreases n,
{
    if n > 1 {
        assert(queue[0].header.frg != 0);
        let rest = queue.skip(1);
        assert forall|i: int| 0 <= i < n - 2 implies (#[trigger] rest[i]).header.frg != 0 by {
            assert(queue[i + 1].header.frg != 0);
        }
        lemma_message_ends(rest, n - 1);
    }
}

/// A queue that starts with the fragments of a message hands out that message, whatever comes
/// after it.
pub proof fn law_fragments_reassemble(m: EngineModel, conv: u32, data: Seq<u8>, mss: int)
    requires
        mss > 0,
        0 < data.len() <= receiving::message_limit(),
        sending::chunk_count(data.len() as int, mss) <= constants::IKCP_WND_RCV,
        ({
            let f = sending::fragments(conv, sending::chunks(data, mss), false);
            &&& f.len() <= m.rcv_queue.len()
            &&& delivery::payloads(m.rcv_queue.take(f.len() as int)) == delivery::payloads(f)
        }),
    ensures
        m.has_message(),
        m.first_message() == data,
        receiving::message_len(m.rcv_queue) == sending::chunk_count(data.len() as int, mss),
{
    let pieces = sending::chunks(data, mss);
    let f = sending::fragments(conv, pieces, false);
    let n = f.len() as int;
    sending::lemma_chunks(data, mss);
    assert(n > 0) by {
        assert((data.len() + mss - 1) / mss >= 1) by (nonlinear_arith)
            requires
                data.len() >= 1,
                mss > 0,
        ;
    }
    let queue = m.rcv_queue;
    assert forall|i: int| 0 <= i < n implies (#[trigger] queue[i]).header.frg == n - 1 - i by {
        assert(delivery::payloads(queue.take(n))[i] == delivery::payloads(f)[i]);
        assert(queue.take(n)[i] == queue[i]);
    }
    lemma_message_ends(queue, n);
    lemma_joined_by_payload(queue.take(n), f);
    law_fragments_join(conv, data, mss, false);
}

/// Queueing data adds it at the end of what waits to be sent, with or without message
/// boundaries.
pub proof fn law_queueing_keeps_bytes(m: EngineModel, data: Seq<u8>)
    requires
        m.wf(),
    ensures
        receiving::joined(m.queued(data).snd_queue) == receiving::joined(m.snd_queue) + data,
{
    let n = if m.config.stream_mode {
        sending::spare(m.snd_queue, data.len() as int, m.mss())
    } else {
        0
    };
    let top = sending::topped_up(m.snd_queue, data, n);
    let more = sending::fragments(
        m.conv,
        sending::chunks(data.skip(n), m.mss()),
        m.config.stream_mode,
    );
    lemma_joined_append(top, more);
    law_fragments_join(m.conv, data.skip(n), m.mss(), m.config.stream_mode);
    assert(data.take(n) + data.skip(n) =~= data);
    if n == 0 {
        assert(data.take(0) =~= Seq::empty());
        assert(receiving::joined(m.snd_queue) + data.take(0) =~= receiving::joined(m.snd_queue));
    } else {
        assert(top.drop_last() =~= m.snd_queue.drop_last());
        assert(receiving::joined(top) =~= receiving::joined(m.snd_queue) + data.take(n));
    }
    assert(receiving::joined(m.queued(data).snd_queue) =~= receiving::joined(m.snd_queue) + data);
}

/// Joining two runs of segments.
pub proof fn lemma_joined_append(a: Seq<SegmentModel>, b: Seq<SegmentModel>)
    ensures
        receiving::joined(a + b) == receiving::joined(a) + receiving::joined(b),
    decreases b.len(),
{
    if b.len() == 0 {
        assert(a + b =~= a);
        assert(receiving::joined(a) + receiving::joined(b) =~= receiving::joined(a));
    } else {
        lemma_joined_append(a, b.drop_last());
        assert((a + b).drop_last() =~= a + b.drop_last());
        assert((a + b).last() == b.last());
        assert(receiving::joined(a + b) =~= receiving::joined(a) + receiving::joined(b));
    }
}

/// The packets have come in one after the other, each at its time.
pub open spec fn fed_all(m: EngineModel, packets: Seq<Seq<u8>>, times: Seq<u32>) -> EngineModel
    decreases packets.len(),
{
    if packets.len() == 0 {
        m
    } else {
        fed_all(m, packets.drop_last(), times).fed(packets.last(), times[packets.len() - 1])
    }
}

/// The data segments continue the numbering of what the engine expects, and it has room for
/// them.
spec fn next_in_line(m: EngineModel, segs: Seq<SegmentModel>) -> bool {
    &&& m.wf()
    &&& m.rcv_buf.len() == 0
    &&& m.rcv_queue.len() + segs.len() <= m.wnd.rcv <= sequence::half_circle()
    &&& forall|i: int|
        0 <= i < segs.len() ==> (#[trigger] segs[i]).header.cmd == constants::IKCP_CMD_PUSH
            && segs[i].header.conv == m.conv && segs[i].header.sn == sequence::advanced(
            m.rcv_nxt,
            i,
        )
}

/// The segments have been put at the end of the queue.
spec fn lined_up(m: EngineModel, segs: Seq<SegmentModel>, after: EngineModel) -> bool {
    &&& after.wf()
    &&& after.conv == m.conv
    &&& after.config == m.config
    &&& after.rcv_buf.len() == 0
    &&& after.rcv_queue == m.rcv_queue + segs
    &&& after.rcv_nxt == sequence::advanced(m.rcv_nxt, segs.len() as int)
    &&& after.ack_list.len() == m.ack_list.len() + segs.len()
    &&& after.snd_queue == m.snd_queue
    &&& after.output == m.output
    &&& m.snd_buf.len() == 0 ==> after.snd_buf.len() == 0
}

/// The segment that is due goes to the queue at once.
proof fn lemma_due_segment(m: EngineModel, seg: SegmentModel)
    requires
        m.receive_wf(),
        m.rcv_buf.len() == 0,
        m.rcv_queue.len() < m.wnd.rcv <= sequence::half_circle(),
        seg.header.sn == m.rcv_nxt,
    ensures
        m.awaits(seg.header.sn),
        m.stored(seg).rcv_queue == m.rcv_queue.push(seg),
        m.stored(seg).rcv_buf.len() == 0,
        m.stored(seg).rcv_nxt == sequence::advanced(m.rcv_nxt, 1),
{
    let nxt = m.rcv_nxt;
    assert(!receiving::holds(m.rcv_buf, nxt));
    let buf = m.rcv_buf.insert(0, seg);
    assert(buf.len() == 1 && buf[0] == seg);
    assert(buf.skip(1).len() == 0);
    assert(receiving::run_len(buf.skip(1), sequence::advanced(nxt, 1), m.room() - 1) == 0);
    assert(receiving::run_len(buf, nxt, m.room()) == 1);
    assert(m.rcv_queue + buf.take(1) =~= m.rcv_queue.push(seg));
}

/// One segment that is next in line.
proof fn lemma_absorb_due(m: EngineModel, seg: SegmentModel, now: u32)
    requires
        next_in_line(m, seq![seg]),
    ensures
        lined_up(m, seq![seg], m.absorbed(seg, now)),
{
    let one = seq![seg];
    assert(one[0].header.sn == sequence::advanced(m.rcv_nxt, 0));
    assert(sequence::advanced(m.rcv_nxt, 0) == m.rcv_nxt);
    input::lemma_absorbed_wf(m, seg, now);
    let t = m.told(seg.header);
    let a = EngineModel { ack_list: t.ack_list.push((seg.header.sn, seg.header.ts)), ..t };
    input::lemma_told_wf(m, seg.header);
    lemma_due_segment(a, seg);
    assert(m.rcv_queue.push(seg) =~= m.rcv_queue + one);
    input::lemma_lead(m.snd_buf, seg.header.una);
}

/// Segments that are next in line go to the queue at once.
proof fn lemma_digest_in_order(
    m: EngineModel,
    segs: Seq<SegmentModel>,
    newest: Option<u32>,
    now: u32,
)
    requires
        next_in_line(m, segs),
    ensures
        !input::digest(m, segs, newest, now).foreign,
        lined_up(m, segs, input::digest(m, segs, newest, now).engine),
    decreases segs.len(),
{
    if segs.len() == 0 {
        assert(m.rcv_queue + segs =~= m.rcv_queue);
    } else {
        let first = segs[0];
        let rest = segs.skip(1);
        assert(next_in_line(m, seq![first])) by {
            assert(seq![first][0] == segs[0]);
        }
        lemma_absorb_due(m, first, now);
        let next = m.absorbed(first, now);
        assert forall|i: int| 0 <= i < rest.len() implies (#[trigger] rest[i]).header.cmd
            == constants::IKCP_CMD_PUSH && rest[i].header.conv == next.conv && rest[i].header.sn
            == sequence::advanced(next.rcv_nxt, i) by {
            assert(rest[i] == segs[i + 1]);
            receiving::lemma_advanced_twice(m.rcv_nxt, 1, i);
        }
        lemma_digest_in_order(next, rest, input::newest_ack(newest, first.header), now);
        receiving::lemma_advanced_twice(m.rcv_nxt, 1, rest.len() as int);
        assert(m.rcv_queue + seq![first] + rest =~= m.rcv_queue + segs);
    }
}

/// Packets whose segments are next in line fill the queue with them.
proof fn lemma_fed_in_order(
    m: EngineModel,
    packets: Seq<Seq<u8>>,
    segs: Seq<SegmentModel>,
    times: Seq<u32>,
)
    requires
        next_in_line(m, segs),
        wire_laws::unpacked(packets) == segs,
    ensures
        lined_up(m, segs, fed_all(m, packets, times)),
    decreases packets.len(),
{
    if packets.len() == 0 {
        assert(m.rcv_queue + segs =~= m.rcv_queue);
    } else {
        let front = packets.drop_last();
        let now = times[packets.len() - 1];
        let before = wire_laws::unpacked(front);
        let last = input::parse_packet(packets.last());
        assert(segs == before + last);
        assert(next_in_line(m, before)) by {
            assert forall|i: int| 0 <= i < before.len() implies (#[trigger] before[i]).header.cmd
                == constants::IKCP_CMD_PUSH && before[i].header.conv == m.conv
                && before[i].header.sn == sequence::advanced(m.rcv_nxt, i) by {
                assert(segs[i] == before[i]);
            }
        }
        lemma_fed_in_order(m, front, before, times);
        let mid = fed_all(m, front, times);
        assert forall|i: int| 0 <= i < last.len() implies (#[trigger] last[i]).header.cmd
            == constants::IKCP_CMD_PUSH && last[i].header.conv == mid.conv && last[i].header.sn
            == sequence::advanced(mid.rcv_nxt, i) by {
            assert(segs[before.len() + i] == last[i]);
            receiving::lemma_advanced_twice(m.rcv_nxt, before.len() as int, i);
        }
        lemma_digest_in_order(mid, last, None, now);
        let d = input::digest(mid, last, None, now);
        input::lemma_packet_done_wf(d.engine, d.newest, now);
        receiving::lemma_advanced_twice(m.rcv_nxt, before.len() as int, last.len() as int);
        assert(m.rcv_queue + before + last =~= m.rcv_queue + segs);
        if packets.last().len() < 24 {
            assert(last.len() == 0);
            assert(before + last =~= before);
        }
    }
}

/// When every segment is due, all of them are sent.
proof fn lemma_all_transmitted(pass: Pass, segs: Seq<SegmentModel>)
    requires
        forall|i: int| 0 <= i < segs.len() ==> pass.decide(#[trigger] segs[i]) is First,
    ensures
        pass.transmitted(segs) == pass.swept(segs),
    decreases segs.len(),
{
    if segs.len() > 0 {
        let front = segs.drop_last();
        assert forall|i: int| 0 <= i < front.len() implies pass.decide(
            #[trigger] front[i],
        ) is First by {
            assert(segs[i] == front[i]);
        }
        lemma_all_transmitted(pass, front);
        assert(pass.decide(segs[segs.len() - 1]) is First);
        assert(pass.swept(segs) =~= pass.swept(front).push(pass.tried(segs.last())));
    } else {
        assert(pass.swept(segs) =~= Seq::empty());
    }
}

/// A message and two engines with the same settings to carry it: the sender may have all its
/// fragments in flight.
pub open spec fn carries(config: KcpCoreConfig, data: Seq<u8>) -> bool {
    let m = EngineModel::fresh(0, config, 0);
    &&& config.mtu <= usize::MAX / 8
    &&& config.rcv_wnd <= sequence::half_circle()
    &&& data.len() > 0
    &&& m.accepts(data.len() as int)
    &&& sending::chunk_count(data.len() as int, m.mss()) <= config.snd_wnd
}

/// The sender after its first message has been flushed.
pub open spec fn first_sender(
    conv: u32,
    config: KcpCoreConfig,
    data: Seq<u8>,
    t0: u32,
    t1: u32,
) -> EngineModel {
    EngineModel::fresh(conv, config, t0).queued(data).flushed(t1)
}

/// The receiver after it has been fed what the sender put out.
pub open spec fn first_receiver(
    conv: u32,
    config: KcpCoreConfig,
    data: Seq<u8>,
    t0: u32,
    t1: u32,
    t2: Seq<u32>,
) -> EngineModel {
    fed_all(
        EngineModel::fresh(conv, config, t0),
        first_sender(conv, config, data, t0, t1).output,
        t2,
    )
}

/// What the first flush of a new engine sends.
#[verifier::rlimit(40)]
proof fn lemma_first_flush(conv: u32, config: KcpCoreConfig, data: Seq<u8>, t0: u32, t1: u32) -> (f:
    Seq<SegmentModel>)
    requires
        carries(config, data),
    ensures
        ({
            let m = EngineModel::fresh(conv, config, t0).queued(data);
            let s = m.flushed(t1);
            &&& f == sending::fragments(
                conv,
                sending::chunks(data, m.mss()),
                config.stream_mode,
            )
            &&& 0 < f.len() <= constants::IKCP_WND_RCV
            &&& f.len() <= config.rcv_wnd
            &&& m.wf()
            &&& m.outgoing(t1).len() == f.len()
            &&& s.wf()
            &&& s.conv == conv
            &&& s.snd_queue.len() == 0
            &&& s.snd_una == 0
            &&& s.snd_nxt == f.len()
            &&& wire_laws::unpacked(s.output) == wire_laws::as_read(m.outgoing(t1))
            &&& forall|i: int|
                0 <= i < f.len() ==> ({
                    let seg = #[trigger] m.outgoing(t1)[i];
                    &&& seg.header.cmd == constants::IKCP_CMD_PUSH
                    &&& seg.header.conv == conv
                    &&& seg.header.sn == i
                    &&& delivery::payload(seg) == delivery::payload(f[i])
                })
        }),
{
    let a = EngineModel::fresh(conv, config, t0);
    let m = a.queued(data);
    let mss = a.mss();
    let pieces = sending::chunks(data, mss);
    let f = sending::fragments(conv, pieces, config.stream_mode);
    let n = f.len() as int;
    engine::lifecycle::lemma_fresh_wf(conv, config, t0);
    sending::lemma_chunks(data, mss);
    assert(n > 0) by {
        assert((data.len() + mss - 1) / mss >= 1) by (nonlinear_arith)
            requires
                data.len() >= 1,
                mss > 0,
        ;
    }
    assert(data.skip(0) =~= data);
    assert(a.snd_queue + f =~= f);
    assert(m.snd_queue == f);
    sending::lemma_fragments_sendable(a.snd_queue, conv, pieces, config.stream_mode, mss);
    assert(m.wf());
    assert(m.movable() == n);
    let p = m.prepared(t1);
    let pass = m.pass(t1);
    flushing::lemma_prepared_wf(m, t1);
    assert(p.snd_buf.len() == n);
    assert forall|i: int| 0 <= i < n implies ({
        let seg = #[trigger] p.snd_buf[i];
        &&& seg.xmit == 0
        &&& seg.header.sn == i
        &&& seg.header.cmd == constants::IKCP_CMD_PUSH
        &&& seg.header.conv == conv
        &&& delivery::payload(seg) == delivery::payload(f[i])
    }) by {
        assert(sequence::advanced(0, i) == i);
    }
    assert forall|i: int| 0 <= i < n implies pass.decide(#[trigger] p.snd_buf[i]) is First
        && !pass.fatal(p.snd_buf[i]) by {
        assert(p.snd_buf[i].xmit == 0);
    }
    assert(!pass.lost(p.snd_buf));
    flushing::lemma_reach(pass, p.snd_buf);
    assert(p.snd_buf.take(n) =~= p.snd_buf);
    lemma_all_transmitted(pass, p.snd_buf);
    assert(m.control_segments(t1) =~= Seq::empty());
    assert(m.outgoing(t1) =~= pass.swept(p.snd_buf));
    wire_laws::law_flush_output(m, t1);
    flushing::lemma_flushed_wf(m, t1);
    let s = m.flushed(t1);
    assert(s.output =~= wire_laws::added(m, t1));
    assert(s.snd_nxt == n) by {
        assert(sequence::advanced(0, n) == n);
    }
    assert forall|i: int| 0 <= i < n implies ({
        let seg = #[trigger] m.outgoing(t1)[i];
        &&& seg.header.cmd == constants::IKCP_CMD_PUSH
        &&& seg.header.conv == conv
        &&& seg.header.sn == i
        &&& delivery::payload(seg) == delivery::payload(f[i])
    }) by {
        assert(m.outgoing(t1)[i] == pass.tried(p.snd_buf[i]));
        assert(p.snd_buf[i].header.sn == i);
    }
    f
}

/// A message that a new engine sends arrives: fed the datagrams of one flush, a new engine with
/// the same settings holds exactly the data, and, where message boundaries are kept, hands it
/// out as one message.
pub proof fn law_message_arrives(
    conv: u32,
    config: KcpCoreConfig,
    data: Seq<u8>,
    t0: u32,
    t1: u32,
    t2: Seq<u32>,
)
    requires
        carries(config, data),
    ensures
        ({
            let b = first_receiver(conv, config, data, t0, t1, t2);
            &&& b.wf()
            &&& receiving::joined(b.rcv_queue) == data
            &&& !config.stream_mode && data.len() <= receiving::message_limit() ==> b.has_message()
                && b.first_message() == data
        }),
{
    let b0 = EngineModel::fresh(conv, config, t0);
    let m = b0.queued(data);
    let f = lemma_first_flush(conv, config, data, t0, t1);
    lemma_first_arrival(conv, config, data, t0, t1, t2);
    let b = first_receiver(conv, config, data, t0, t1, t2);
    let n = f.len() as int;
    let mss = b0.mss();
    assert(delivery::payloads(b.rcv_queue) == delivery::payloads(f));
    lemma_joined_by_payload(b.rcv_queue, f);
    law_fragments_join(conv, data, mss, config.stream_mode);
    sending::lemma_chunks(data, mss);
    if !config.stream_mode && data.len() <= receiving::message_limit() {
        assert(b.rcv_queue.len() == delivery::payloads(b.rcv_queue).len());
        assert(b.rcv_queue.take(n) =~= b.rcv_queue);
        law_fragments_reassemble(b, conv, data, mss);
    }
}

/// What the receiver of a first message is like.
proof fn lemma_first_arrival(
    conv: u32,
    config: KcpCoreConfig,
    data: Seq<u8>,
    t0: u32,
    t1: u32,
    t2: Seq<u32>,
)
    requires
        carries(config, data),
    ensures
        ({
            let b = first_receiver(conv, config, data, t0, t1, t2);
            let f = sending::fragments(
                conv,
                sending::chunks(data, EngineModel::fresh(conv, config, t0).mss()),
                config.stream_mode,
            );
            &&& b.wf()
            &&& b.conv == conv
            &&& b.rcv_nxt == f.len()
            &&& b.ack_list.len() == f.len()
            &&& b.snd_queue.len() == 0
            &&& b.snd_buf.len() == 0
            &&& b.output.len() == 0
            &&& delivery::payloads(b.rcv_queue) == delivery::payloads(f)
        }),
{
    let b0 = EngineModel::fresh(conv, config, t0);
    let f = lemma_first_flush(conv, config, data, t0, t1);
    let all = b0.queued(data).outgoing(t1);
    engine::lifecycle::lemma_fresh_wf(conv, config, t0);
    lemma_arrival(b0, all, f, first_sender(conv, config, data, t0, t1).output, t2);
}

/// What a new receiver is like that has been fed numbered fragments.
proof fn lemma_arrival(
    b0: EngineModel,
    all: Seq<SegmentModel>,
    f: Seq<SegmentModel>,
    packets: Seq<Seq<u8>>,
    times: Seq<u32>,
)
    requires
        b0.wf(),
        b0.rcv_nxt == 0,
        b0.rcv_queue.len() == 0,
        b0.rcv_buf.len() == 0,
        b0.ack_list.len() == 0,
        b0.snd_queue.len() == 0,
        b0.snd_buf.len() == 0,
        b0.output.len() == 0,
        f.len() <= b0.wnd.rcv <= sequence::half_circle(),
        f.len() <= constants::IKCP_WND_RCV,
        all.len() == f.len(),
        wire_laws::unpacked(packets) == wire_laws::as_read(all),
        forall|i: int|
            0 <= i < f.len() ==> ({
                let seg = #[trigger] all[i];
                &&& seg.header.cmd == constants::IKCP_CMD_PUSH
                &&& seg.header.conv == b0.conv
                &&& seg.header.sn == i
                &&& delivery::payload(seg) == delivery::payload(f[i])
            }),
    ensures
        ({
            let b = fed_all(b0, packets, times);
            &&& b.wf()
            &&& b.conv == b0.conv
            &&& b.rcv_nxt == f.len()
            &&& b.ack_list.len() == f.len()
            &&& b.snd_queue.len() == 0
            &&& b.snd_buf.len() == 0
            &&& b.output.len() == 0
            &&& delivery::payloads(b.rcv_queue) == delivery::payloads(f)
        }),
{
    let n = f.len() as int;
    let segs = wire_laws::as_read(all);
    assert forall|i: int| 0 <= i < segs.len() implies (#[trigger] segs[i]).header.cmd
        == constants::IKCP_CMD_PUSH && segs[i].header.conv == b0.conv && segs[i].header.sn
        == sequence::advanced(b0.rcv_nxt, i) by {
        assert(all[i].header.sn == i);
        assert(sequence::advanced(0, i) == i);
    }
    lemma_fed_in_order(b0, packets, segs, times);
    let b = fed_all(b0, packets, times);
    assert(b.rcv_queue =~= segs);
    assert(sequence::advanced(0, n) == n);
    assert(delivery::payloads(b.rcv_queue) =~= delivery::payloads(f)) by {
        assert forall|i: int| 0 <= i < n implies delivery::payloads(b.rcv_queue)[i]
            == delivery::payloads(f)[i] by {
            assert(b.rcv_queue[i] == segs[i]);
            assert(delivery::payload(all[i]) == delivery::payload(f[i]));
        }
    }
}

/// When all segments come before `una`, all of them lead.
proof fn lemma_all_lead(buf: Seq<SegmentModel>, una: u32)
    requires
        forall|i: int|
            0 <= i < buf.len() ==> sequence::before((#[trigger] buf[i]).header.sn, una),
    ensures
        input::lead(buf, una) == buf.len(),
    decreases buf.len(),
{
    if buf.len() > 0 {
        assert(sequence::before(buf[0].header.sn, una));
        let rest = buf.skip(1);
        assert forall|i: int| 0 <= i < rest.len() implies sequence::before(
            (#[trigger] rest[i]).header.sn,
            una,
        ) by {
            assert(buf[i + 1] == rest[i]);
        }
        lemma_all_lead(rest, una);
    }
}

/// Everything in flight comes before `una`.
pub open spec fn covered(m: EngineModel, una: u32) -> bool {
    forall|i: int|
        0 <= i < m.snd_buf.len() ==> sequence::before((#[trigger] m.snd_buf[i]).header.sn, una)
}

/// A segment that acknowledges everything leaves nothing in flight.
proof fn lemma_absorb_covering(m: EngineModel, seg: SegmentModel, now: u32)
    requires
        covered(m, seg.header.una),
    ensures
        m.absorbed(seg, now).snd_buf.len() == 0,
        m.absorbed(seg, now).snd_queue == m.snd_queue,
        m.absorbed(seg, now).conv == m.conv,
{
    lemma_all_lead(m.snd_buf, seg.header.una);
    let t = m.told(seg.header);
    assert(t.snd_buf.len() == 0);
    assert(input::without(t.snd_buf, seg.header.sn).len() == 0);
}

/// Segments that acknowledge everything leave nothing in flight.
proof fn lemma_digest_covering(
    m: EngineModel,
    segs: Seq<SegmentModel>,
    newest: Option<u32>,
    now: u32,
    una: u32,
)
    requires
        covered(m, una),
        forall|i: int|
            0 <= i < segs.len() ==> (#[trigger] segs[i]).header.una == una
                && segs[i].header.conv == m.conv,
    ensures
        ({
            let d = input::digest(m, segs, newest, now);
            &&& !d.foreign
            &&& d.engine.snd_queue == m.snd_queue
            &&& d.engine.conv == m.conv
            &&& if segs.len() == 0 {
                d.engine.snd_buf == m.snd_buf
            } else {
                d.engine.snd_buf.len() == 0
            }
        }),
    decreases segs.len(),
{
    if segs.len() > 0 {
        assert(segs[0].header.una == una);
        lemma_absorb_covering(m, segs[0], now);
        let next = m.absorbed(segs[0], now);
        let rest = segs.skip(1);
        assert forall|i: int| 0 <= i < rest.len() implies (#[trigger] rest[i]).header.una == una
            && rest[i].header.conv == next.conv by {
            assert(rest[i] == segs[i + 1]);
        }
        lemma_digest_covering(next, rest, input::newest_ack(newest, segs[0].header), now, una);
    }
}

/// Packets that acknowledge everything leave nothing in flight.
pub proof fn lemma_fed_covering(
    m: EngineModel,
    packets: Seq<Seq<u8>>,
    times: Seq<u32>,
    una: u32,
)
    requires
        covered(m, una),
        forall|i: int|
            0 <= i < wire_laws::unpacked(packets).len() ==> (#[trigger] wire_laws::unpacked(
                packets,
            )[i]).header.una == una && wire_laws::unpacked(packets)[i].header.conv == m.conv,
    ensures
        ({
            let after = fed_all(m, packets, times);
            &&& after.snd_queue == m.snd_queue
            &&& after.conv == m.conv
            &&& covered(after, una)
            &&& wire_laws::unpacked(packets).len() > 0 ==> after.snd_buf.len() == 0
        }),
    decreases packets.len(),
{
    if packets.len() > 0 {
        let front = packets.drop_last();
        let now = times[packets.len() - 1];
        let segs = wire_laws::unpacked(packets);
        let before = wire_laws::unpacked(front);
        let last = input::parse_packet(packets.last());
        assert forall|i: int| 0 <= i < before.len() implies (
        #[trigger] before[i]).header.una == una && before[i].header.conv == m.conv by {
            assert(segs[i] == before[i]);
        }
        lemma_fed_covering(m, front, times, una);
        let mid = fed_all(m, front, times);
        assert forall|i: int| 0 <= i < last.len() implies (#[trigger] last[i]).header.una == una
            && last[i].header.conv == mid.conv by {
            assert(segs[before.len() + i] == last[i]);
        }
        lemma_digest_covering(mid, last, None, now, una);
        let d = input::digest(mid, last, None, now);
        let after = fed_all(m, packets, times);
        if packets.last().len() >= 24 {
            assert(after.snd_buf.len() == d.engine.snd_buf.len());
            assert forall|i: int| 0 <= i < after.snd_buf.len() implies sequence::before(
                (#[trigger] after.snd_buf[i]).header.sn,
                una,
            ) by {
                assert(after.snd_buf[i].header.sn == d.engine.snd_buf[i].header.sn);
                assert(d.engine.snd_buf == mid.snd_buf);
                assert(sequence::before(mid.snd_buf[i].header.sn, una));
            }
        }
    }
}

/// An acknowledgement comes back: fed the datagrams of one flush of the receiver, the sender
/// has nothing left to send or to wait for.
pub proof fn law_acknowledgement_returns(
    conv: u32,
    config: KcpCoreConfig,
    data: Seq<u8>,
    t0: u32,
    t1: u32,
    t2: Seq<u32>,
    t3: u32,
    t4: Seq<u32>,
)
    requires
        carries(config, data),
    ensures
        !fed_all(
            first_sender(conv, config, data, t0, t1),
            first_receiver(conv, config, data, t0, t1, t2).flushed(t3).output,
            t4,
        ).unsent(),
{
    let f = lemma_first_flush(conv, config, data, t0, t1);
    lemma_first_arrival(conv, config, data, t0, t1, t2);
    lemma_return(
        first_sender(conv, config, data, t0, t1),
        first_receiver(conv, config, data, t0, t1, t2),
        f.len() as u32,
        t3,
        t4,
    );
}

/// A receiver that owes acknowledgements and has nothing of its own to send clears the sender.
proof fn lemma_return(s: EngineModel, b: EngineModel, una: u32, t3: u32, t4: Seq<u32>)
    requires
        s.wf(),
        b.wf(),
        s.conv == b.conv,
        s.snd_queue.len() == 0,
        s.snd_una == 0,
        s.snd_nxt == una,
        una <= constants::IKCP_WND_RCV,
        b.rcv_nxt == una,
        b.ack_list.len() > 0,
        b.snd_queue.len() == 0,
        b.snd_buf.len() == 0,
        b.output.len() == 0,
    ensures
        !fed_all(s, b.flushed(t3).output, t4).unsent(),
{
    wire_laws::law_flush_output(b, t3);
    wire_laws::law_outgoing_tells_window(b, t3);
    let packets = b.flushed(t3).output;
    assert(packets =~= wire_laws::added(b, t3));
    lemma_only_control(b, t3);
    let segs = wire_laws::as_read(b.outgoing(t3));
    assert forall|i: int| 0 <= i < segs.len() implies (#[trigger] segs[i]).header.una == una
        && segs[i].header.conv == s.conv by {
        assert(b.outgoing(t3)[i].header.una == b.rcv_nxt);
    }
    assert(covered(s, una)) by {
        assert forall|i: int| 0 <= i < s.snd_buf.len() implies sequence::before(
            (#[trigger] s.snd_buf[i]).header.sn,
            una,
        ) by {
            assert(sequence::distance(0, s.snd_buf[i].header.sn) < s.inflight());
        }
    }
    lemma_fed_covering(s, packets, t4, una);
}

/// An engine with nothing to send sends control segments alone.
proof fn lemma_only_control(b: EngineModel, now: u32)
    requires
        b.wf(),
        b.ack_list.len() > 0,
        b.snd_queue.len() == 0,
        b.snd_buf.len() == 0,
    ensures
        b.outgoing(now).len() > 0,
        forall|i: int|
            0 <= i < b.outgoing(now).len() ==> (#[trigger] b.outgoing(now)[i]).header.conv == b.conv,
{
    let p = b.prepared(now);
    let pass = b.pass(now);
    assert(p.snd_buf.len() == 0);
    flushing::lemma_reach(pass, p.snd_buf);
    assert(pass.transmitted(p.snd_buf.take(0)) =~= Seq::empty());
    assert(b.outgoing(now) =~= b.control_segments(now));
}

} // verus!
