//! What acknowledgements tell about round trips: the estimate follows the samples, and the
//! timeout lies above it.
use super::{EngineModel, RttState};
use crate::engine::input;
use crate::engine::supply;
use crate::protocol::SegmentModel;
use crate::sequence;
use vstd::prelude::*;

verus! {

/// How far two numbers lie apart.
pub open spec fn gap(a: int, b: int) -> int {
    if a < b {
        b - a
    } else {
        a - b
    }
}

/// The estimate after a sample: the first sample is the average, and half of it the variance.
/// After that the average moves an eighth of the way to the sample, and the variance a quarter of
/// the way to how far the sample lies from the average.
pub open spec fn follows_sample(old: RttState, sample: int, new: RttState) -> bool {
    if old.avg == 0 {
        &&& new.avg == sample
        &&& 2 * new.var <= sample < 2 * new.var + 2
    } else {
        &&& new.avg >= 1
        &&& new.avg > 1 ==> 8 * new.avg <= 7 * old.avg + sample
        &&& 7 * old.avg + sample < 8 * new.avg + 8
        &&& sample < 0x8000_0000 && old.avg < 0x8000_0000 ==> 4 * new.var <= 3 * old.var + gap(
            sample,
            old.avg as int,
        ) < 4 * new.var + 4
    }
}

/// The timeout lies four times the variance above the average, or four intervals where that is
/// more, but within its limits.
pub open spec fn covers(rtt: RttState, interval: u32) -> bool {
    let low = rtt.avg + 4 * rtt.var;
    let floor = rtt.avg + 4 * interval;
    &&& rtt.min_rto <= rtt.rto <= 60000
    &&& rtt.rto < 60000 ==> rtt.rto >= low && rtt.rto >= floor
    &&& rtt.rto > rtt.min_rto ==> rtt.rto <= low || rtt.rto <= floor
}

/// An acknowledgement is a sample of the time since what it acknowledges was sent. The estimate
/// follows it, the timeout covers the estimate, and the statistics show both.
pub proof fn law_estimate_follows_samples(m: EngineModel, seg: SegmentModel, now: u32)
    requires
        m.wf(),
        seg.header.cmd == 82,
        now >= seg.header.ts,
    ensures
        ({
            let after = m.absorbed(seg, now);
            &&& follows_sample(m.rtt, now - seg.header.ts, after.rtt)
            &&& covers(after.rtt, m.config.nodelay.interval)
            &&& after.rtt.min_rto == m.rtt.min_rto
            &&& after.stats.rtt == after.rtt.avg
            &&& after.stats.rtt_var == after.rtt.var
            &&& after.stats.rto == after.rtt.rto
        }),
{
}

/// Nothing else is a sample.
pub proof fn law_only_acknowledgements_are_samples(m: EngineModel, seg: SegmentModel, now: u32)
    requires
        seg.header.cmd != 82 || now < seg.header.ts,
    ensures
        m.absorbed(seg, now).rtt == m.rtt,
        m.absorbed(seg, now).stats.rtt == m.stats.rtt,
        m.absorbed(seg, now).stats.rtt_var == m.stats.rtt_var,
        m.absorbed(seg, now).stats.rto == m.stats.rto,
{
}

/// The new average lies between the old one and the sample, and moves towards the sample when
/// that is eight or more away.
pub proof fn law_average_moves_to_sample(m: EngineModel, seg: SegmentModel, now: u32)
    requires
        m.wf(),
        seg.header.cmd == 82,
        now >= seg.header.ts,
        m.rtt.avg > 0,
    ensures
        ({
            let a = m.rtt.avg as int;
            let s = now - seg.header.ts;
            let b = m.absorbed(seg, now).rtt.avg as int;
            &&& a <= s ==> a <= b <= s
            &&& s <= a ==> s <= b <= a
            &&& gap(s, a) >= 8 ==> gap(s, b) < gap(s, a)
        }),
{
    law_estimate_follows_samples(m, seg, now);
}

/// Segments have been taken in one after the other, each at its time.
pub open spec fn absorbed_all(m: EngineModel, segs: Seq<SegmentModel>, times: Seq<u32>) -> EngineModel
    decreases segs.len(),
{
    if segs.len() == 0 {
        m
    } else {
        absorbed_all(m, segs.drop_last(), times).absorbed(segs.last(), times[segs.len() - 1])
    }
}

/// A path that takes the same time again and again is known sooner or later: the average comes to
/// within eight of the samples, and stays there.
pub proof fn law_average_reaches_steady_samples(
    m: EngineModel,
    segs: Seq<SegmentModel>,
    times: Seq<u32>,
    s: int,
)
    requires
        m.wf(),
        m.rtt.avg > 0,
        forall|k: int|
            0 <= k < segs.len() ==> (#[trigger] segs[k]).header.cmd == 82 && times[k]
                - segs[k].header.ts == s,
        s >= 0,
    ensures
        ({
            let b = absorbed_all(m, segs, times).rtt.avg as int;
            &&& b > 0
            &&& gap(s, b) <= gap(s, m.rtt.avg as int)
            &&& segs.len() >= gap(s, m.rtt.avg as int) ==> gap(s, b) < 8
            &&& gap(s, b) < 8 || gap(s, b) + segs.len() <= gap(s, m.rtt.avg as int)
        }),
        absorbed_all(m, segs, times).wf(),
    decreases segs.len(),
{
    if segs.len() > 0 {
        let front = segs.drop_last();
        assert forall|k: int| 0 <= k < front.len() implies (#[trigger] front[k]).header.cmd == 82
            && times[k] - front[k].header.ts == s by {
            assert(front[k] == segs[k]);
        }
        law_average_reaches_steady_samples(m, front, times, s);
        let mid = absorbed_all(m, front, times);
        let n = segs.len() - 1;
        assert(segs[n].header.cmd == 82);
        law_average_moves_to_sample(mid, segs.last(), times[n]);
        law_estimate_follows_samples(mid, segs.last(), times[n]);
        input::lemma_absorbed_wf(mid, segs.last(), times[n]);
    }
}

/// The estimate after some segments, of which one alone is a sample.
proof fn lemma_digest_sample(
    m: EngineModel,
    segs: Seq<SegmentModel>,
    newest: Option<u32>,
    now: u32,
    k: int,
)
    requires
        m.wf(),
        forall|j: int| 0 <= j < segs.len() ==> (#[trigger] segs[j]).header.conv == m.conv,
        forall|j: int| 0 <= j < segs.len() && j != k ==> (#[trigger] segs[j]).header.cmd != 82,
        0 <= k < segs.len() ==> segs[k].header.cmd == 82 && now >= segs[k].header.ts,
    ensures
        ({
            let e = input::digest(m, segs, newest, now).engine;
            &&& !(0 <= k < segs.len()) ==> e.rtt == m.rtt
            &&& 0 <= k < segs.len() ==> follows_sample(m.rtt, now - segs[k].header.ts, e.rtt)
                && covers(e.rtt, m.config.nodelay.interval)
        }),
    decreases segs.len(),
{
    if segs.len() > 0 {
        let rest = segs.skip(1);
        let next = m.absorbed(segs[0], now);
        assert(segs[0].header.conv == m.conv);
        input::lemma_absorbed_wf(m, segs[0], now);
        assert(next.config == m.config);
        assert forall|j: int| 0 <= j < rest.len() implies (#[trigger] rest[j]).header.conv
            == next.conv by {
            assert(rest[j] == segs[j + 1]);
        }
        assert forall|j: int| 0 <= j < rest.len() && j != k - 1 implies (
        #[trigger] rest[j]).header.cmd != 82 by {
            assert(rest[j] == segs[j + 1]);
        }
        if 0 <= k - 1 < rest.len() {
            assert(rest[k - 1] == segs[k]);
        }
        if k == 0 {
            law_estimate_follows_samples(m, segs[0], now);
        } else {
            assert(segs[0].header.cmd != 82);
            law_only_acknowledgements_are_samples(m, segs[0], now);
        }
        lemma_digest_sample(next, rest, input::newest_ack(newest, segs[0].header), now, k - 1);
    }
}

/// A packet with one acknowledgement is one sample, and a packet without any is none.
pub proof fn law_packets_are_samples(m: EngineModel, packet: Seq<u8>, now: u32, k: int)
    requires
        m.wf(),
        packet.len() >= 24,
        ({
            let segs = input::parse_packet(packet);
            &&& forall|j: int| 0 <= j < segs.len() ==> (#[trigger] segs[j]).header.conv == m.conv
            &&& forall|j: int|
                0 <= j < segs.len() && j != k ==> (#[trigger] segs[j]).header.cmd != 82
            &&& 0 <= k < segs.len() ==> segs[k].header.cmd == 82 && now >= segs[k].header.ts
        }),
    ensures
        ({
            let segs = input::parse_packet(packet);
            let after = m.fed(packet, now);
            &&& !(0 <= k < segs.len()) ==> after.rtt == m.rtt
            &&& 0 <= k < segs.len() ==> follows_sample(
                m.rtt,
                now - segs[k].header.ts,
                after.rtt,
            ) && covers(after.rtt, m.config.nodelay.interval)
        }),
{
    let segs = input::parse_packet(packet);
    lemma_digest_sample(m, segs, None, now, k);
    assert(m.fed(packet, now).rtt == input::digest(m, segs, None, now).engine.rtt);
}

/// Acknowledgements that are owed are sent first, each with the number and the time of what it
/// acknowledges, and with nothing else than that, the window and what is expected next. A flush
/// sends each once.
pub proof fn law_acknowledgements_are_sent(m: EngineModel, now: u32, k: int)
    requires
        m.wf(),
        supply::in_conversation(m),
        0 <= k < m.outgoing(now).len(),
    ensures
        m.ack_list.len() <= m.outgoing(now).len(),
        m.flushed(now).ack_list.len() == 0,
        m.outgoing(now)[k].header.cmd == 82 <==> k < m.ack_list.len(),
        k < m.ack_list.len() ==> ({
            let h = m.outgoing(now)[k].header;
            &&& h.sn == m.ack_list[k].0
            &&& h.ts == m.ack_list[k].1
            &&& h.conv == m.conv
            &&& h.una == m.rcv_nxt
            &&& h.frg == 0
            &&& h.len == 0
            &&& m.outgoing(now)[k].data.len() == 0
        }),
{
    let control = m.control_segments(now);
    if k < control.len() {
        assert(m.outgoing(now)[k] == control[k]);
    } else {
        crate::engine::retransmission::lemma_data_follows_control(m, now, k);
    }
}

/// The time of a round trip is what the sender measures: data that is sent at one time and
/// acknowledged by the peer is, when the acknowledgement comes back, a sample of the time since.
pub proof fn law_round_trip_is_measured(
    a: EngineModel,
    b: EngineModel,
    sent: u32,
    c: int,
    between: u32,
    answer: u32,
    back: u32,
)
    requires
        a.wf(),
        b.wf(),
        supply::in_conversation(b),
        a.conv == b.conv,
        0 <= c < a.outgoing(sent).len(),
        a.outgoing(sent)[c].header.cmd == 81,
        b.wnd.rcv > 0,
        a.outgoing(sent)[c].header.sn == b.rcv_nxt,
        b.wnd.rcv <= 0x8000_0000,
        back >= sent,
    ensures
        ({
            let got = b.absorbed(a.outgoing(sent)[c], between);
            let k = got.ack_list.len() - 1;
            let after = a.flushed(sent).absorbed(got.outgoing(answer)[k], back);
            &&& 0 <= k < got.outgoing(answer).len()
            &&& got.outgoing(answer)[k].header.sn == a.outgoing(sent)[c].header.sn
            &&& follows_sample(a.rtt, back - sent, after.rtt)
        }),
{
    let seg = a.outgoing(sent)[c];
    let got = b.absorbed(seg, between);
    let k = got.ack_list.len() - 1;
    crate::engine::retransmission::lemma_sent_time(a, sent, c);
    assert(sequence::before(
        seg.header.sn,
        sequence::advanced(b.rcv_nxt, b.wnd.rcv as int),
    )) by {
        sequence::law_distance_of_advanced(b.rcv_nxt, b.wnd.rcv as int);
    }
    assert(got.ack_list == b.ack_list.push((seg.header.sn, seg.header.ts)));
    input::lemma_absorbed_wf(b, seg, between);
    assert(got.snd_buf.len() == 0 || supply::in_conversation(got)) by {
        crate::engine::retransmission::lemma_absorbed_in_conversation(b, seg, between);
    }
    assert(supply::in_conversation(got));
    let control = got.control_segments(answer);
    assert(got.outgoing(answer)[k] == control[k]);
    law_acknowledgements_are_sent(got, answer, k);
    let ack = got.outgoing(answer)[k];
    crate::engine::flushing::lemma_flushed_wf(a, sent);
    assert(a.flushed(sent).rtt == a.rtt);
    law_estimate_follows_samples(a.flushed(sent), ack, back);
}

} // verus!
