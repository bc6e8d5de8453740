//! What holds of segments on the wire: datagrams respect the transmission unit, and the peer
//! reads from them exactly the segments that were sent.
use super::flushing::Pass;
use super::EngineModel;
use crate::engine;
use crate::engine::input;
use crate::engine::packing;
use crate::protocol;
use crate::protocol::SegmentModel;
use vstd::prelude::*;

verus! {

/// The segments as the peer reads them: without the state that only the sender keeps.
pub open spec fn as_read(segs: Seq<SegmentModel>) -> Seq<SegmentModel> {
    Seq::new(segs.len(), |i: int| SegmentModel::fresh(segs[i].header, segs[i].data))
}

/// The bytes of the segments, one after the other.
pub open spec fn wires(segs: Seq<SegmentModel>) -> Seq<u8>
    decreases segs.len(),
{
    if segs.len() == 0 {
        Seq::empty()
    } else {
        wires(segs.drop_last()) + segs.last().wire()
    }
}

/// What the peer reads from a sequence of datagrams.
pub open spec fn unpacked(packets: Seq<Seq<u8>>) -> Seq<SegmentModel>
    decreases packets.len(),
{
    if packets.len() == 0 {
        Seq::empty()
    } else {
        unpacked(packets.drop_last()) + input::parse_packet(packets.last())
    }
}

/// Every packet is one of these, in whatever order, however often, and whichever are missing.
pub open spec fn drawn_from(packets: Seq<Seq<u8>>, all: Seq<Seq<u8>>) -> bool {
    forall|i: int| 0 <= i < packets.len() ==> all.contains(#[trigger] packets[i])
}

/// The packets are all of these, in whatever order and however often.
pub open spec fn reorders(packets: Seq<Seq<u8>>, all: Seq<Seq<u8>>) -> bool {
    drawn_from(packets, all) && drawn_from(all, packets)
}

/// A segment that is read comes out of one of the packets.
proof fn lemma_unpacked_origin(packets: Seq<Seq<u8>>, i: int) -> (r: (int, int))
    requires
        0 <= i < unpacked(packets).len(),
    ensures
        0 <= r.0 < packets.len(),
        0 <= r.1 < input::parse_packet(packets[r.0]).len(),
        input::parse_packet(packets[r.0])[r.1] == unpacked(packets)[i],
    decreases packets.len(),
{
    let front = packets.drop_last();
    let n = unpacked(front).len();
    if i < n {
        let r = lemma_unpacked_origin(front, i);
        assert(front[r.0] == packets[r.0]);
        r
    } else {
        (packets.len() - 1, i - n)
    }
}

/// The segments of a packet are among those that are read.
proof fn lemma_packet_is_unpacked(packets: Seq<Seq<u8>>, p: int, j: int) -> (i: int)
    requires
        0 <= p < packets.len(),
        0 <= j < input::parse_packet(packets[p]).len(),
    ensures
        0 <= i < unpacked(packets).len(),
        unpacked(packets)[i] == input::parse_packet(packets[p])[j],
    decreases packets.len(),
{
    let front = packets.drop_last();
    if p < front.len() {
        assert(front[p] == packets[p]);
        lemma_packet_is_unpacked(front, p, j)
    } else {
        unpacked(front).len() + j
    }
}

/// Packets that are drawn from others hold no other segments.
pub proof fn lemma_drawn_segment(packets: Seq<Seq<u8>>, all: Seq<Seq<u8>>, i: int) -> (k: int)
    requires
        drawn_from(packets, all),
        0 <= i < unpacked(packets).len(),
    ensures
        0 <= k < unpacked(all).len(),
        unpacked(all)[k] == unpacked(packets)[i],
{
    let (p, j) = lemma_unpacked_origin(packets, i);
    assert(all.contains(packets[p]));
    let q = choose|q: int| 0 <= q < all.len() && all[q] == packets[p];
    lemma_packet_is_unpacked(all, q, j)
}

/// What is read from packets and more packets.
pub proof fn lemma_unpacked_append(a: Seq<Seq<u8>>, b: Seq<Seq<u8>>)
    ensures
        unpacked(a + b) == unpacked(a) + unpacked(b),
    decreases b.len(),
{
    if b.len() == 0 {
        assert(a + b =~= a);
        assert(unpacked(a) + unpacked(b) =~= unpacked(a));
    } else {
        lemma_unpacked_append(a, b.drop_last());
        assert((a + b).drop_last() =~= a + b.drop_last());
        assert((a + b).last() == b.last());
        assert(unpacked(a + b) =~= unpacked(a) + unpacked(b));
    }
}

/// A segment at the front of a packet is read, and then the rest.
pub proof fn lemma_parse_front(seg: SegmentModel, tail: Seq<u8>)
    requires
        seg.len_matches(),
    ensures
        input::parse_packet(seg.wire() + tail) == seq![
            SegmentModel::fresh(seg.header, seg.data),
        ] + input::parse_packet(tail),
{
    let s = seg.wire() + tail;
    let h = seg.header;
    protocol::lemma_header_wire_len(h);
    protocol::law_header_round_trip(h, seg.data + tail);
    assert(s =~= h.wire() + (seg.data + tail));
    assert(s.subrange(24, 24 + h.len as int) =~= seg.data);
    assert(s.skip(24 + h.len as int) =~= tail);
}

/// Segments at the front of a packet are read in order, and then the rest.
pub proof fn lemma_parse_wires(segs: Seq<SegmentModel>, tail: Seq<u8>)
    requires
        forall|i: int| 0 <= i < segs.len() ==> (#[trigger] segs[i]).len_matches(),
    ensures
        input::parse_packet(wires(segs) + tail) == as_read(segs) + input::parse_packet(tail),
    decreases segs.len(),
{
    if segs.len() == 0 {
        assert(wires(segs) + tail =~= tail);
        assert(as_read(segs) + input::parse_packet(tail) =~= input::parse_packet(tail));
    } else {
        let front = segs.drop_last();
        let last = segs.last();
        assert forall|i: int| 0 <= i < front.len() implies (#[trigger] front[i]).len_matches() by {
            assert(segs[i].len_matches());
        }
        assert(segs[segs.len() - 1].len_matches());
        assert(wires(segs) + tail =~= wires(front) + (last.wire() + tail));
        lemma_parse_wires(front, last.wire() + tail);
        lemma_parse_front(last, tail);
        assert(as_read(segs) =~= as_read(front).push(SegmentModel::fresh(last.header, last.data)));
        assert(as_read(front) + (seq![SegmentModel::fresh(last.header, last.data)]
            + input::parse_packet(tail)) =~= as_read(segs) + input::parse_packet(tail));
    }
}

/// How packing stands after some segments: the datagram being filled holds the last `k` of
/// them, and the full ones hold the rest.
#[verifier::rlimit(40)]
proof fn lemma_packed_holds(segs: Seq<SegmentModel>, mtu: int) -> (k: int)
    requires
        forall|i: int| 0 <= i < segs.len() ==> (#[trigger] segs[i]).len_matches(),
    ensures
        0 <= k <= segs.len(),
        packing::packed(segs, mtu).current == wires(segs.skip(segs.len() - k)),
        unpacked(packing::packed(segs, mtu).full) == as_read(segs.take(segs.len() - k)),
        packing::packed(segs, mtu).current.len() == 0 ==> k == 0,
    decreases segs.len(),
{
    if segs.len() == 0 {
        assert(segs.skip(0) =~= segs);
        assert(as_read(segs.take(0)) =~= unpacked(Seq::empty()));
        0
    } else {
        let front = segs.drop_last();
        let last = segs.last();
        let n = segs.len() as int;
        assert forall|i: int| 0 <= i < front.len() implies (#[trigger] front[i]).len_matches() by {
            assert(segs[i].len_matches());
        }
        let j = lemma_packed_holds(front, mtu);
        let p = packing::packed(front, mtu);
        protocol::lemma_header_wire_len(last.header);
        if p.current.len() > 0 && p.current.len() + last.wire().len() > mtu {
            let group = front.skip(front.len() - j);
            assert forall|i: int| 0 <= i < group.len() implies (
            #[trigger] group[i]).len_matches() by {
                assert(front[front.len() - j + i].len_matches());
            }
            lemma_parse_wires(group, Seq::empty());
            assert(wires(group) + Seq::<u8>::empty() =~= wires(group));
            assert(input::parse_packet(Seq::<u8>::empty()) =~= Seq::empty());
            assert(as_read(group) + Seq::<SegmentModel>::empty() =~= as_read(group));
            assert(p.full.push(p.current).drop_last() =~= p.full);
            assert(as_read(front.take(front.len() - j)) + as_read(group) =~= as_read(
                segs.take(n - 1),
            ));
            let one = segs.skip(n - 1);
            assert(one.drop_last() =~= Seq::empty());
            assert(one.last() == last);
            assert(wires(one) =~= last.wire()) by {
                assert(wires(one.drop_last()) =~= Seq::empty());
            }
            1
        } else {
            let group = segs.skip(n - (j + 1));
            assert(group.drop_last() =~= front.skip(front.len() - j));
            assert(group.last() == last);
            assert(segs.take(n - (j + 1)) =~= front.take(front.len() - j));
            j + 1
        }
    }
}

/// The peer reads from the datagrams exactly the segments that were packed, in order.
#[verifier::rlimit(40)]
pub proof fn law_datagrams_carry_segments(segs: Seq<SegmentModel>, mtu: int)
    requires
        forall|i: int| 0 <= i < segs.len() ==> (#[trigger] segs[i]).len_matches(),
    ensures
        unpacked(packing::datagrams(segs, mtu)) == as_read(segs),
{
    let k = lemma_packed_holds(segs, mtu);
    let p = packing::packed(segs, mtu);
    let n = segs.len() as int;
    if p.current.len() > 0 {
        let group = segs.skip(n - k);
        assert forall|i: int| 0 <= i < group.len() implies (#[trigger] group[i]).len_matches() by {
            assert(segs[n - k + i].len_matches());
        }
        lemma_parse_wires(group, Seq::empty());
        assert(wires(group) + Seq::<u8>::empty() =~= wires(group));
        assert(as_read(group) + input::parse_packet(Seq::<u8>::empty()) =~= as_read(group));
        assert(p.full.push(p.current).drop_last() =~= p.full);
        assert(as_read(segs.take(n - k)) + as_read(group) =~= as_read(segs));
    } else {
        assert(segs.take(n) =~= segs);
    }
}

/// No datagram is empty or exceeds the transmission unit, if no segment does.
pub proof fn law_datagrams_fit(segs: Seq<SegmentModel>, mtu: int)
    requires
        forall|i: int| 0 <= i < segs.len() ==> 24 + (#[trigger] segs[i]).data.len() <= mtu,
    ensures
        packing::packed(segs, mtu).current.len() <= mtu || segs.len() == 0,
        forall|i: int|
            0 <= i < packing::datagrams(segs, mtu).len() ==> 0 < (#[trigger] packing::datagrams(
                segs,
                mtu,
            )[i]).len() <= mtu,
    decreases segs.len(),
{
    if segs.len() > 0 {
        let front = segs.drop_last();
        assert forall|i: int| 0 <= i < front.len() implies 24 + (#[trigger] front[i]).data.len()
            <= mtu by {
            assert(24 + segs[i].data.len() <= mtu);
        }
        law_datagrams_fit(front, mtu);
        protocol::lemma_header_wire_len(segs.last().header);
        assert(24 + segs[segs.len() - 1].data.len() <= mtu);
        let p = packing::packed(front, mtu);
        let q = packing::packed(segs, mtu);
        assert forall|i: int| 0 <= i < q.datagrams().len() implies 0 < (
        #[trigger] q.datagrams()[i]).len() <= mtu by {
            if i < p.full.len() {
                assert(q.datagrams()[i] == packing::datagrams(front, mtu)[i]);
            } else if i < q.full.len() {
                assert(q.datagrams()[i] == p.current);
                assert(packing::datagrams(front, mtu)[i] == p.current);
            } else {
                assert(q.datagrams()[i] == q.current);
                assert(segs.last().wire().len() == 24 + segs.last().data.len());
                assert(q.current.len() <= mtu);
            }
        }
    }
}

/// Every datagram holds a segment.
proof fn lemma_datagrams_hold(segs: Seq<SegmentModel>, mtu: int)
    requires
        forall|i: int| 0 <= i < segs.len() ==> (#[trigger] segs[i]).len_matches(),
    ensures
        forall|i: int|
            0 <= i < packing::datagrams(segs, mtu).len() ==> input::parse_packet(
                #[trigger] packing::datagrams(segs, mtu)[i],
            ).len() > 0,
    decreases segs.len(),
{
    if segs.len() > 0 {
        let front = segs.drop_last();
        assert forall|i: int| 0 <= i < front.len() implies (#[trigger] front[i]).len_matches() by {
            assert(segs[i].len_matches());
        }
        lemma_datagrams_hold(front, mtu);
        let k = lemma_packed_holds(segs, mtu);
        let p = packing::packed(front, mtu);
        let q = packing::packed(segs, mtu);
        let group = segs.skip(segs.len() - k);
        assert forall|i: int| 0 <= i < group.len() implies (#[trigger] group[i]).len_matches() by {
            assert(segs[segs.len() - k + i].len_matches());
        }
        lemma_parse_wires(group, Seq::empty());
        assert(wires(group) + Seq::<u8>::empty() =~= q.current);
        assert forall|i: int| 0 <= i < q.datagrams().len() implies input::parse_packet(
            #[trigger] q.datagrams()[i],
        ).len() > 0 by {
            if i < q.full.len() {
                assert(q.datagrams()[i] == packing::datagrams(front, mtu)[i]);
            } else {
                assert(q.datagrams()[i] == q.current);
                assert(k > 0);
            }
        }
    }
}

/// Segments that carry what their headers say stay so when they are sent, and they are sent
/// with the window, the time and the next expected number of the moment.
pub proof fn lemma_transmitted(pass: Pass, segs: Seq<SegmentModel>, mss: int)
    requires
        engine::sendable(segs, mss),
    ensures
        engine::sendable(pass.transmitted(segs), mss),
        pass.transmitted(segs).len() <= segs.len(),
        forall|i: int|
            0 <= i < pass.transmitted(segs).len() ==> {
                let h = (#[trigger] pass.transmitted(segs)[i]).header;
                h.wnd == pass.wnd && h.una == pass.una && h.ts == pass.now
            },
        forall|i: int|
            0 <= i < pass.transmitted(segs).len() ==> exists|j: int|
                0 <= j < segs.len() && pass.tried(segs[j]) == #[trigger] pass.transmitted(segs)[i]
                    && !(pass.decide(segs[j]) is Quiet),
    decreases segs.len(),
{
    if segs.len() > 0 {
        let front = segs.drop_last();
        assert forall|i: int| 0 <= i < front.len() implies (#[trigger] front[i]).len_matches()
            && front[i].data.len() <= mss by {
            assert(segs[i].len_matches());
        }
        lemma_transmitted(pass, front, mss);
        let t = pass.transmitted(segs);
        let f = pass.transmitted(front);
        let last = segs[segs.len() - 1];
        assert(last.len_matches());
        assert forall|i: int| 0 <= i < t.len() implies (#[trigger] t[i]).len_matches()
            && t[i].data.len() <= mss by {
            if i < f.len() {
                assert(t[i] == f[i]);
                assert(f[i].len_matches());
            }
        }
        assert forall|i: int| 0 <= i < t.len() implies ({
            let h = (#[trigger] t[i]).header;
            h.wnd == pass.wnd && h.una == pass.una && h.ts == pass.now
        }) by {
            if i < f.len() {
                assert(t[i] == f[i]);
            }
        }
        assert forall|i: int| 0 <= i < t.len() implies exists|j: int|
            0 <= j < segs.len() && pass.tried(segs[j]) == #[trigger] t[i] && !(pass.decide(
                segs[j],
            ) is Quiet) by {
            if i < f.len() {
                assert(t[i] == f[i]);
                let j = choose|j: int|
                    0 <= j < front.len() && pass.tried(front[j]) == f[i] && !(pass.decide(
                        front[j],
                    ) is Quiet);
                assert(segs[j] == front[j]);
            } else {
                assert(pass.tried(segs[segs.len() - 1]) == t[i]);
            }
        }
    }
}

/// What a flush sends: each segment carries what its header says and fits into a datagram.
pub proof fn lemma_outgoing(m: EngineModel, now: u32)
    requires
        m.wf(),
    ensures
        engine::sendable(m.outgoing(now), m.mss()),
{
    engine::flushing::lemma_prepared_wf(m, now);
    let p = m.prepared(now);
    let pass = m.pass(now);
    engine::flushing::lemma_reach(pass, p.snd_buf);
    let part = p.snd_buf.take(pass.reach(p.snd_buf) as int);
    assert forall|i: int| 0 <= i < part.len() implies (#[trigger] part[i]).len_matches()
        && part[i].data.len() <= m.mss() by {
        assert(p.snd_buf[i].len_matches());
    }
    lemma_transmitted(pass, part, m.mss());
    let control = m.control_segments(now);
    let all = m.outgoing(now);
    assert forall|i: int| 0 <= i < control.len() implies (#[trigger] control[i]).len_matches()
        && control[i].data.len() == 0 by {}
    assert forall|i: int| 0 <= i < all.len() implies (#[trigger] all[i]).len_matches()
        && all[i].data.len() <= m.mss() by {
        if i < control.len() {
            assert(all[i] == control[i]);
        } else {
            assert(all[i] == pass.transmitted(part)[i - control.len()]);
            assert(pass.transmitted(part)[i - control.len()].len_matches());
        }
    }
}

/// The datagrams that a flush adds to the output.
pub open spec fn added(m: EngineModel, now: u32) -> Seq<Seq<u8>> {
    m.flushed(now).output.skip(m.output.len() as int)
}

/// A flush leaves the datagrams that were ready before it in front, adds none that is empty or
/// exceeds the transmission unit, and none without a segment. The peer reads from them exactly the segments that the
/// flush sends, in order.
pub proof fn law_flush_output(m: EngineModel, now: u32)
    requires
        m.wf(),
    ensures
        m.flushed(now).output == m.output + added(m, now),
        forall|i: int|
            0 <= i < added(m, now).len() ==> 0 < (#[trigger] added(m, now)[i]).len()
                <= m.config.mtu,
        forall|i: int|
            0 <= i < added(m, now).len() ==> input::parse_packet(
                #[trigger] added(m, now)[i],
            ).len() > 0,
        unpacked(added(m, now)) == as_read(m.outgoing(now)),
{
    lemma_outgoing(m, now);
    let all = m.outgoing(now);
    let mtu = m.config.mtu as int;
    let packets = packing::datagrams(all, mtu);
    assert forall|i: int| 0 <= i < all.len() implies (#[trigger] all[i]).len_matches() && 24
        + all[i].data.len() <= mtu by {}
    law_datagrams_carry_segments(all, mtu);
    law_datagrams_fit(all, mtu);
    lemma_datagrams_hold(all, mtu);
    assert(m.flushed(now).output == m.output + packets);
    assert(added(m, now) =~= packets);
}

/// Every segment that a flush sends tells the peer how much of the receive window is left and
/// which number is expected next.
pub proof fn law_outgoing_tells_window(m: EngineModel, now: u32)
    requires
        m.wf(),
    ensures
        forall|i: int|
            0 <= i < m.outgoing(now).len() ==> (#[trigger] m.outgoing(now)[i]).header.wnd
                == m.advertised() && m.outgoing(now)[i].header.una == m.rcv_nxt,
{
    engine::flushing::lemma_prepared_wf(m, now);
    let p = m.prepared(now);
    let pass = m.pass(now);
    engine::flushing::lemma_reach(pass, p.snd_buf);
    let part = p.snd_buf.take(pass.reach(p.snd_buf) as int);
    assert forall|i: int| 0 <= i < part.len() implies (#[trigger] part[i]).len_matches()
        && part[i].data.len() <= m.mss() by {
        assert(p.snd_buf[i].len_matches());
    }
    lemma_transmitted(pass, part, m.mss());
    let control = m.control_segments(now);
    assert forall|i: int| 0 <= i < m.outgoing(now).len() implies (#[trigger] m.outgoing(
        now,
    )[i]).header.wnd == m.advertised() && m.outgoing(now)[i].header.una == m.rcv_nxt by {
        if i < control.len() {
            assert(m.outgoing(now)[i] == control[i]);
        } else {
            assert(m.outgoing(now)[i] == pass.transmitted(part)[i - control.len()]);
        }
    }
}

} // verus!
