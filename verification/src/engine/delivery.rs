//! What the protocol is for: whatever packets arrive, in whatever order and however often, the
//! application gets what was sent, in order and once.
//!
//! The script of a conversation is the list of all data segments that one side has numbered so
//! far, each as its fragment count and its data. The laws say that a sender only ever sends
//! segments of its script, and that a receiver which is fed such segments hands out the script
//! from the start, without gap and without repetition.
use super::{EngineModel, ProbeState};
use crate::config::KcpCoreConfig;
use crate::engine;
use crate::engine::flushing;
use crate::engine::input;
use crate::engine::receiving;
use crate::engine::wire_laws;
use crate::protocol::constants;
use crate::protocol::SegmentModel;
use crate::sequence;
use vstd::prelude::*;

verus! {

/// What a data segment is to the application.
pub open spec fn payload(seg: SegmentModel) -> (u8, Seq<u8>) {
    (seg.header.frg, seg.data)
}

/// What data segments are to the application.
pub open spec fn payloads(segs: Seq<SegmentModel>) -> Seq<(u8, Seq<u8>)> {
    Seq::new(segs.len(), |i: int| payload(segs[i]))
}

/// The segment is number `k` of the script, where numbers start at `base`.
pub open spec fn scripted(
    seg: SegmentModel,
    base: u32,
    script: Seq<(u8, Seq<u8>)>,
    k: int,
) -> bool {
    &&& 0 <= k < script.len()
    &&& script.len() - k <= sequence::half_circle()
    &&& seg.header.sn == sequence::advanced(base, k)
    &&& payload(seg) == script[k]
}

/// The segment is one of the script, not further from its end than half the circle.
pub open spec fn genuine(seg: SegmentModel, base: u32, script: Seq<(u8, Seq<u8>)>) -> bool {
    exists|k: int| scripted(seg, base, script, k)
}

/// All data segments among these are of the script.
pub open spec fn all_genuine(
    segs: Seq<SegmentModel>,
    base: u32,
    script: Seq<(u8, Seq<u8>)>,
) -> bool {
    forall|i: int|
        0 <= i < segs.len() && (#[trigger] segs[i]).header.cmd == constants::IKCP_CMD_PUSH
            ==> genuine(segs[i], base, script)
}

impl EngineModel {
    /// How much of the script has been put in order, when the application has taken `taken`
    /// segments.
    pub open spec fn progress(self, taken: int) -> int {
        taken + self.rcv_queue.len()
    }

    /// A receiver that follows the script: the application has taken the first `taken`
    /// segments, the queue holds the next ones, and the buffer holds later ones.
    pub open spec fn follows(self, base: u32, script: Seq<(u8, Seq<u8>)>, taken: int) -> bool {
        let n = self.progress(taken);
        &&& 0 <= taken
        &&& n <= script.len()
        &&& script.len() - n <= sequence::half_circle()
        &&& self.rcv_nxt == sequence::advanced(base, n)
        &&& payloads(self.rcv_queue) == script.subrange(taken, n)
        &&& forall|i: int|
            0 <= i < self.rcv_buf.len() ==> ({
                let k = n + sequence::distance(
                    self.rcv_nxt,
                    (#[trigger] self.rcv_buf[i]).header.sn,
                );
                k < script.len() && payload(self.rcv_buf[i]) == script[k]
            })
    }

    /// A sender whose script this is: the next number is that of the next segment of the
    /// script, and what is in flight is of the script.
    pub open spec fn records(self, base: u32, script: Seq<(u8, Seq<u8>)>) -> bool {
        &&& self.snd_nxt == sequence::advanced(base, script.len() as int)
        &&& forall|i: int|
            0 <= i < self.snd_buf.len() ==> ({
                let d = sequence::distance((#[trigger] self.snd_buf[i]).header.sn, self.snd_nxt);
                &&& 0 < d <= script.len()
                &&& payload(self.snd_buf[i]) == script[script.len() - d]
            })
    }

    /// The script after a flush: the segments that it numbers are added.
    pub open spec fn script_after(self, script: Seq<(u8, Seq<u8>)>) -> Seq<(u8, Seq<u8>)> {
        script + payloads(self.snd_queue.take(self.movable()))
    }
}

/// Where on the script a number lies that is due now or later.
pub proof fn lemma_script_place(base: u32, n: int, k: int)
    requires
        -sequence::half_circle() <= k - n < sequence::half_circle(),
        sequence::distance(sequence::advanced(base, n), sequence::advanced(base, k))
            < sequence::half_circle(),
        0 <= n,
        0 <= k,
    ensures
        k == n + sequence::distance(sequence::advanced(base, n), sequence::advanced(base, k)),
{
    let c = sequence::circle();
    let d = sequence::distance(sequence::advanced(base, n), sequence::advanced(base, k));
    assert(d == (k - n) % 0x1_0000_0000) by {
        vstd::arithmetic::div_mod::lemma_sub_mod_noop(
            base + k,
            base + n,
            0x1_0000_0000,
        );
    }
}

/// Moving on what is due keeps a receiver on the script.
pub proof fn lemma_pumped_follows(
    m: EngineModel,
    base: u32,
    script: Seq<(u8, Seq<u8>)>,
    taken: int,
)
    requires
        m.receive_wf(),
        m.follows(base, script, taken),
    ensures
        m.pumped().follows(base, script, taken),
{
    let after = m.pumped();
    let nxt = m.rcv_nxt;
    let r = receiving::run_len(m.rcv_buf, nxt, m.room()) as int;
    let n = m.progress(taken);
    receiving::lemma_run_len(m.rcv_buf, nxt, m.room());
    receiving::lemma_advanced_twice(base, n, r);
    assert forall|i: int| 0 <= i < r implies payload(#[trigger] m.rcv_buf[i]) == script[n + i]
        && n + i < script.len() by {
        receiving::lemma_run_position(m.rcv_buf, nxt, m.room(), i);
    }
    if r > 0 {
        receiving::lemma_run_position(m.rcv_buf, nxt, m.room(), r - 1);
        let last = m.rcv_buf[r - 1];
        assert(n + sequence::distance(nxt, last.header.sn) < script.len());
    }
    assert(payloads(after.rcv_queue) =~= script.subrange(taken, n + r)) by {
        assert forall|i: int| 0 <= i < n + r - taken implies payloads(after.rcv_queue)[i]
            == script.subrange(taken, n + r)[i] by {
            if i < m.rcv_queue.len() {
                assert(payloads(m.rcv_queue)[i] == script.subrange(taken, n)[i]);
            } else {
                assert(after.rcv_queue[i] == m.rcv_buf[i - m.rcv_queue.len()]);
            }
        }
    }
    assert forall|i: int| 0 <= i < after.rcv_buf.len() implies ({
        let k = (n + r) + sequence::distance(
            after.rcv_nxt,
            (#[trigger] after.rcv_buf[i]).header.sn,
        );
        k < script.len() && payload(after.rcv_buf[i]) == script[k]
    }) by {
        let seg = m.rcv_buf[i + r];
        assert(after.rcv_buf[i] == seg);
        if r > 0 {
            receiving::lemma_run_position(m.rcv_buf, nxt, m.room(), r - 1);
            assert(sequence::distance(nxt, m.rcv_buf[r - 1].header.sn) < sequence::distance(
                nxt,
                m.rcv_buf[i + r].header.sn,
            ));
        }
        receiving::lemma_distance_shift(nxt, r, seg.header.sn);
    }
}

/// Taking in a data segment of the script keeps a receiver on it: the queue only grows, by the
/// next segments of the script.
pub proof fn law_storing_follows_script(
    m: EngineModel,
    seg: SegmentModel,
    base: u32,
    script: Seq<(u8, Seq<u8>)>,
    taken: int,
)
    requires
        m.receive_wf(),
        m.follows(base, script, taken),
        genuine(seg, base, script),
    ensures
        m.stored(seg).follows(base, script, taken),
        m.stored(seg).rcv_queue.len() >= m.rcv_queue.len(),
{
    let sn = seg.header.sn;
    let nxt = m.rcv_nxt;
    let n = m.progress(taken);
    lemma_pumped_follows(m, base, script, taken);
    if m.awaits(sn) && !receiving::holds(m.rcv_buf, sn) {
        let k = choose|k: int| scripted(seg, base, script, k);
        lemma_script_place(base, n, k);
        let p = receiving::slot(m.rcv_buf, nxt, sn) as int;
        receiving::lemma_slot(m.rcv_buf, nxt, sn);
        let mid = EngineModel { rcv_buf: m.rcv_buf.insert(p, seg), ..m };
        receiving::lemma_insert_in_order(m.rcv_buf, nxt, seg);
        assert forall|i: int| 0 <= i < mid.rcv_buf.len() implies ({
            let k2 = n + sequence::distance(nxt, (#[trigger] mid.rcv_buf[i]).header.sn);
            k2 < script.len() && payload(mid.rcv_buf[i]) == script[k2]
        }) by {
            if i < p {
                assert(mid.rcv_buf[i] == m.rcv_buf[i]);
            } else if i > p {
                assert(mid.rcv_buf[i] == m.rcv_buf[i - 1]);
            }
        }
        assert(mid.follows(base, script, taken));
        lemma_pumped_follows(mid, base, script, taken);
    }
}

/// Taking in a segment keeps a receiver on the script.
pub proof fn lemma_absorbed_follows(
    m: EngineModel,
    seg: SegmentModel,
    now: u32,
    base: u32,
    script: Seq<(u8, Seq<u8>)>,
    taken: int,
)
    requires
        m.wf(),
        m.follows(base, script, taken),
        seg.header.cmd == constants::IKCP_CMD_PUSH ==> genuine(seg, base, script),
    ensures
        m.absorbed(seg, now).follows(base, script, taken),
{
    let t = m.told(seg.header);
    assert(t.follows(base, script, taken));
    if seg.header.cmd == constants::IKCP_CMD_PUSH {
        let a = EngineModel { ack_list: t.ack_list.push((seg.header.sn, seg.header.ts)), ..t };
        assert(a.follows(base, script, taken));
        law_storing_follows_script(a, seg, base, script, taken);
    } else {
        let after = m.absorbed(seg, now);
        assert(after.rcv_queue == m.rcv_queue);
        assert(after.rcv_buf == m.rcv_buf);
        assert(after.rcv_nxt == m.rcv_nxt);
    }
}

/// Taking in segments keeps a receiver on the script.
proof fn lemma_digest_follows(
    m: EngineModel,
    segs: Seq<SegmentModel>,
    newest: Option<u32>,
    now: u32,
    base: u32,
    script: Seq<(u8, Seq<u8>)>,
    taken: int,
)
    requires
        m.wf(),
        m.follows(base, script, taken),
        all_genuine(segs, base, script),
    ensures
        input::digest(m, segs, newest, now).engine.follows(base, script, taken),
    decreases segs.len(),
{
    if segs.len() > 0 && segs[0].header.conv == m.conv {
        assert(segs[0].header.cmd == constants::IKCP_CMD_PUSH ==> genuine(segs[0], base, script));
        lemma_absorbed_follows(m, segs[0], now, base, script, taken);
        input::lemma_absorbed_wf(m, segs[0], now);
        let rest = segs.skip(1);
        assert forall|i: int|
            0 <= i < rest.len() && (#[trigger] rest[i]).header.cmd
                == constants::IKCP_CMD_PUSH implies genuine(rest[i], base, script) by {
            assert(rest[i] == segs[i + 1]);
        }
        lemma_digest_follows(
            m.absorbed(segs[0], now),
            rest,
            input::newest_ack(newest, segs[0].header),
            now,
            base,
            script,
            taken,
        );
    }
}

/// A packet whose data segments are of the script keeps a receiver on it, whatever else the
/// packet holds, whichever segments it repeats, and whichever are missing.
pub proof fn law_packets_follow_script(
    m: EngineModel,
    packet: Seq<u8>,
    now: u32,
    base: u32,
    script: Seq<(u8, Seq<u8>)>,
    taken: int,
)
    requires
        m.wf(),
        m.follows(base, script, taken),
        all_genuine(input::parse_packet(packet), base, script),
    ensures
        m.fed(packet, now).follows(base, script, taken),
{
    lemma_digest_follows(m, input::parse_packet(packet), None, now, base, script, taken);
    let d = input::digest(m, input::parse_packet(packet), None, now);
    let after = m.fed(packet, now);
    if packet.len() >= 24 {
        assert(after.rcv_queue == d.engine.rcv_queue);
        assert(after.rcv_buf == d.engine.rcv_buf);
        assert(after.rcv_nxt == d.engine.rcv_nxt);
    }
}

/// A message that the application takes is the next part of the script, and the receiver stays
/// on the script.
pub proof fn law_taking_follows_script(
    m: EngineModel,
    base: u32,
    script: Seq<(u8, Seq<u8>)>,
    taken: int,
)
    requires
        m.wf(),
        m.follows(base, script, taken),
    ensures
        ({
            let n = receiving::message_len(m.rcv_queue) as int;
            &&& m.received().follows(base, script, taken + n)
            &&& payloads(m.rcv_queue.take(n)) == script.subrange(taken, taken + n)
            &&& m.first_message() == receiving::joined(m.rcv_queue.take(n))
        }),
{
    let n = receiving::message_len(m.rcv_queue) as int;
    receiving::lemma_message_len(m.rcv_queue);
    let total = m.progress(taken);
    let mid = EngineModel {
        rcv_queue: m.rcv_queue.skip(n),
        stats: crate::protocol::KcpStats {
            bytes_received: ((m.stats.bytes_received + m.first_message().len())
                % 0x1_0000_0000_0000_0000) as u64,
            ..m.stats
        },
        ..m
    };
    assert forall|i: int| 0 <= i < m.rcv_queue.len() implies payload(#[trigger] m.rcv_queue[i])
        == script[taken + i] by {
        assert(payloads(m.rcv_queue)[i] == script.subrange(taken, total)[i]);
    }
    assert(payloads(mid.rcv_queue) =~= script.subrange(taken + n, total));
    assert(payloads(m.rcv_queue.take(n)) =~= script.subrange(taken, taken + n));
    assert(mid.follows(base, script, taken + n));
    lemma_pumped_follows(mid, base, script, taken + n);
    let pumped = mid.pumped();
    let after = m.received();
    assert(after.rcv_queue == pumped.rcv_queue);
    assert(after.rcv_buf == pumped.rcv_buf);
    assert(after.rcv_nxt == pumped.rcv_nxt);
}

/// A new engine is at the start of an empty script, as a receiver and as a sender.
pub proof fn law_fresh_is_at_start(conv: u32, config: KcpCoreConfig, now: u32)
    ensures
        EngineModel::fresh(conv, config, now).follows(0, Seq::empty(), 0),
        EngineModel::fresh(conv, config, now).records(0, Seq::empty()),
{
    let m = EngineModel::fresh(conv, config, now);
    assert(payloads(m.rcv_queue) =~= Seq::<(u8, Seq<u8>)>::empty().subrange(0, 0));
}

/// A receiver stays on the script when the sender numbers more segments.
pub proof fn law_script_grows(
    m: EngineModel,
    base: u32,
    script: Seq<(u8, Seq<u8>)>,
    more: Seq<(u8, Seq<u8>)>,
    taken: int,
)
    requires
        m.follows(base, script, taken),
        script.len() + more.len() - m.progress(taken) <= sequence::half_circle(),
    ensures
        m.follows(base, script + more, taken),
{
    let n = m.progress(taken);
    let longer = script + more;
    assert(longer.subrange(taken, n) =~= script.subrange(taken, n));
    assert forall|i: int| 0 <= i < m.rcv_buf.len() implies ({
        let k = n + sequence::distance(m.rcv_nxt, (#[trigger] m.rcv_buf[i]).header.sn);
        k < longer.len() && payload(m.rcv_buf[i]) == longer[k]
    }) by {}
}

/// Sending has no effect on what the engine receives.
pub proof fn law_sending_keeps_receiver(
    m: EngineModel,
    data: Seq<u8>,
    now: u32,
    base: u32,
    script: Seq<(u8, Seq<u8>)>,
    taken: int,
)
    requires
        m.follows(base, script, taken),
    ensures
        m.queued(data).follows(base, script, taken),
        m.flushed(now).follows(base, script, taken),
        m.updated(now).follows(base, script, taken),
        m.nudged(now).follows(base, script, taken),
{
    let a = m.queued(data);
    assert(a.rcv_queue == m.rcv_queue && a.rcv_buf == m.rcv_buf && a.rcv_nxt == m.rcv_nxt);
    let b = m.flushed(now);
    assert(b.rcv_queue == m.rcv_queue && b.rcv_buf == m.rcv_buf && b.rcv_nxt == m.rcv_nxt);
    let c = m.updated(now);
    assert(c.rcv_queue == m.rcv_queue && c.rcv_buf == m.rcv_buf && c.rcv_nxt == m.rcv_nxt);
    let d = m.nudged(now);
    assert(d.rcv_queue == m.rcv_queue && d.rcv_buf == m.rcv_buf && d.rcv_nxt == m.rcv_nxt);
}

/// The segment is one of these, but for what sending and acknowledgements change in it.
pub open spec fn one_of(seg: SegmentModel, segs: Seq<SegmentModel>) -> bool {
    exists|j: int|
        0 <= j < segs.len() && seg.header.sn == (#[trigger] segs[j]).header.sn && payload(seg)
            == payload(segs[j])
}

/// Every segment of `b` in flight is one of `a`, but for what sending and acknowledgements
/// change in it.
pub open spec fn fewer_in_flight(a: EngineModel, b: EngineModel) -> bool {
    &&& b.snd_nxt == a.snd_nxt
    &&& forall|i: int| 0 <= i < b.snd_buf.len() ==> one_of(#[trigger] b.snd_buf[i], a.snd_buf)
}

/// A sender with fewer segments in flight has the same script.
proof fn lemma_fewer_records(a: EngineModel, b: EngineModel, base: u32, script: Seq<(u8, Seq<u8>)>)
    requires
        a.records(base, script),
        fewer_in_flight(a, b),
    ensures
        b.records(base, script),
{
    assert forall|i: int| 0 <= i < b.snd_buf.len() implies ({
        let d = sequence::distance((#[trigger] b.snd_buf[i]).header.sn, b.snd_nxt);
        &&& 0 < d <= script.len()
        &&& payload(b.snd_buf[i]) == script[script.len() - d]
    }) by {
        assert(one_of(b.snd_buf[i], a.snd_buf));
        let j = choose|j: int|
            0 <= j < a.snd_buf.len() && b.snd_buf[i].header.sn == (#[trigger] a.snd_buf[j]).header.sn
                && payload(b.snd_buf[i]) == payload(a.snd_buf[j]);
        assert(0 < sequence::distance(a.snd_buf[j].header.sn, a.snd_nxt) <= script.len());
    }
}

/// Taking in a segment leaves no more in flight.
proof fn lemma_absorbed_fewer(m: EngineModel, seg: SegmentModel, now: u32)
    ensures
        fewer_in_flight(m, m.absorbed(seg, now)),
{
    let after = m.absorbed(seg, now);
    let t = m.told(seg.header);
    let k = input::lead(m.snd_buf, seg.header.una) as int;
    input::lemma_lead(m.snd_buf, seg.header.una);
    assert forall|i: int| 0 <= i < t.snd_buf.len() implies (#[trigger] t.snd_buf[i])
        == m.snd_buf[i + k] by {}
    input::lemma_without_from(t.snd_buf, seg.header.sn);
    assert(after.snd_buf == t.snd_buf || after.snd_buf == input::without(
        t.snd_buf,
        seg.header.sn,
    ));
    assert forall|i: int| 0 <= i < after.snd_buf.len() implies one_of(
        #[trigger] after.snd_buf[i],
        m.snd_buf,
    ) by {
        if after.snd_buf == t.snd_buf {
            assert(t.snd_buf[i] == m.snd_buf[i + k]);
        } else {
            let w = input::without(t.snd_buf, seg.header.sn);
            let j = choose|j: int| 0 <= j < t.snd_buf.len() && t.snd_buf[j] == w[i];
            assert(t.snd_buf[j] == m.snd_buf[j + k]);
        }
    }
}

/// Taking in segments keeps the script of a sender.
proof fn lemma_digest_records(
    m: EngineModel,
    segs: Seq<SegmentModel>,
    newest: Option<u32>,
    now: u32,
    base: u32,
    script: Seq<(u8, Seq<u8>)>,
)
    requires
        m.records(base, script),
    ensures
        input::digest(m, segs, newest, now).engine.records(base, script),
    decreases segs.len(),
{
    if segs.len() > 0 && segs[0].header.conv == m.conv {
        lemma_absorbed_fewer(m, segs[0], now);
        lemma_fewer_records(m, m.absorbed(segs[0], now), base, script);
        lemma_digest_records(
            m.absorbed(segs[0], now),
            segs.skip(1),
            input::newest_ack(newest, segs[0].header),
            now,
            base,
            script,
        );
    }
}

/// Whatever packet comes in, the script of the sender stays.
pub proof fn law_packets_keep_record(
    m: EngineModel,
    packet: Seq<u8>,
    now: u32,
    base: u32,
    script: Seq<(u8, Seq<u8>)>,
)
    requires
        m.records(base, script),
    ensures
        m.fed(packet, now).records(base, script),
{
    lemma_digest_records(m, input::parse_packet(packet), None, now, base, script);
    let d = input::digest(m, input::parse_packet(packet), None, now);
    let after = m.fed(packet, now);
    if packet.len() >= 24 && !d.foreign {
        assert forall|i: int| 0 <= i < after.snd_buf.len() implies one_of(
            #[trigger] after.snd_buf[i],
            d.engine.snd_buf,
        ) by {
            assert(after.snd_buf[i].header == d.engine.snd_buf[i].header);
            assert(after.snd_buf[i].data == d.engine.snd_buf[i].data);
        }
        assert(after.snd_nxt == d.engine.snd_nxt);
        lemma_fewer_records(d.engine, after, base, script);
    }
}

/// Queueing a message, taking one and probing leave the script of the sender alone: only a
/// flush numbers segments.
pub proof fn law_queueing_keeps_record(
    m: EngineModel,
    data: Seq<u8>,
    now: u32,
    base: u32,
    script: Seq<(u8, Seq<u8>)>,
)
    requires
        m.records(base, script),
    ensures
        m.queued(data).records(base, script),
        m.received().records(base, script),
        m.nudged(now).records(base, script),
{
    let a = m.queued(data);
    assert(a.snd_buf == m.snd_buf && a.snd_nxt == m.snd_nxt);
    let b = m.received();
    assert(b.snd_buf == m.snd_buf && b.snd_nxt == m.snd_nxt);
    let c = m.nudged(now);
    assert(c.snd_buf == m.snd_buf && c.snd_nxt == m.snd_nxt);
}

/// How far a number in flight lies before the next one.
proof fn lemma_distance_back(una: u32, f: int, o: int, nxt: u32, sn: u32)
    requires
        0 <= o < f <= 0xffff,
        sequence::distance(una, nxt) == f,
        sequence::distance(una, sn) == o,
    ensures
        sequence::distance(sn, nxt) == f - o,
{
}

/// Counting on from the end of a distance makes it longer.
proof fn lemma_distance_longer(sn: u32, nxt: u32, n: int)
    requires
        0 <= n,
        sequence::distance(sn, nxt) + n < sequence::circle(),
    ensures
        sequence::distance(sn, sequence::advanced(nxt, n)) == sequence::distance(sn, nxt) + n,
{
}

/// The number that lies `d` before another.
proof fn lemma_number_before(base: u32, len: int, d: int, sn: u32)
    requires
        0 < d <= len,
        d < sequence::circle(),
        sequence::distance(sn, sequence::advanced(base, len)) == d,
    ensures
        sn == sequence::advanced(base, len - d),
{
    let c = sequence::circle();
    let nxt = sequence::advanced(base, len);
    assert((sn + d) % 0x1_0000_0000 == nxt) by {
        sequence::law_advanced_by_distance(sn, nxt);
    }
    vstd::arithmetic::div_mod::lemma_sub_mod_noop(base + len, d, 0x1_0000_0000);
    vstd::arithmetic::div_mod::lemma_sub_mod_noop(sn + d, d, 0x1_0000_0000);
}

/// Numbering waiting segments adds them to the script.
pub proof fn lemma_prepared_records(
    m: EngineModel,
    now: u32,
    base: u32,
    script: Seq<(u8, Seq<u8>)>,
)
    requires
        m.wf(),
        m.records(base, script),
    ensures
        m.prepared(now).records(base, m.script_after(script)),
        m.prepared(now).wf(),
{
    flushing::lemma_prepared_wf(m, now);
    let p = m.prepared(now);
    let n = m.movable();
    let longer = m.script_after(script);
    let len = script.len() as int;
    let q = EngineModel {
        ack_list: Seq::empty(),
        probe: ProbeState {
            ask_send: false,
            ask_tell: false,
            ..flushing::probing(m.probe, m.wnd.rmt, now)
        },
        ..m
    };
    assert(q.movable() == n);
    assert(p == q.moved(n, now));
    receiving::lemma_advanced_twice(base, len, n);
    assert(longer.len() == len + n);
    assert forall|i: int| 0 <= i < p.snd_buf.len() implies ({
        let d = sequence::distance((#[trigger] p.snd_buf[i]).header.sn, p.snd_nxt);
        &&& 0 < d <= longer.len()
        &&& payload(p.snd_buf[i]) == longer[longer.len() - d]
    }) by {
        if i < m.snd_buf.len() {
            let seg = m.snd_buf[i];
            assert(p.snd_buf[i] == seg);
            let o = sequence::distance(m.snd_una, seg.header.sn);
            assert(o < m.inflight());
            lemma_distance_back(m.snd_una, m.inflight(), o, m.snd_nxt, seg.header.sn);
            let d = sequence::distance(seg.header.sn, m.snd_nxt);
            lemma_distance_longer(seg.header.sn, m.snd_nxt, n);
            assert(longer[len + n - (d + n)] == script[len - d]);
        } else {
            let j = i - m.snd_buf.len();
            let sn = sequence::advanced(m.snd_nxt, j);
            assert(p.snd_buf[i] == q.numbered(m.snd_queue[j], sn, now));
            receiving::lemma_advanced_twice(m.snd_nxt, j, n - j);
            sequence::law_distance_of_advanced(sn, n - j);
            assert(longer[len + j] == payloads(m.snd_queue.take(n))[j]);
            assert(m.snd_queue.take(n)[j] == m.snd_queue[j]);
        }
    }
}

/// What is in flight is of the script.
pub proof fn lemma_recorded_genuine(m: EngineModel, i: int, base: u32, script: Seq<(u8, Seq<u8>)>)
    requires
        m.wf(),
        m.records(base, script),
        0 <= i < m.snd_buf.len(),
    ensures
        scripted(
            m.snd_buf[i],
            base,
            script,
            script.len() - sequence::distance(m.snd_buf[i].header.sn, m.snd_nxt),
        ),
{
    let seg = m.snd_buf[i];
    let d = sequence::distance(seg.header.sn, m.snd_nxt);
    assert(0 < d <= script.len());
    let o = sequence::distance(m.snd_una, seg.header.sn);
    assert(o < m.inflight());
    lemma_distance_back(m.snd_una, m.inflight(), o, m.snd_nxt, seg.header.sn);
    lemma_number_before(base, script.len() as int, d, seg.header.sn);
}

/// A flush adds the segments that it numbers to the script, in the order in which they waited,
/// and every data segment that it sends is of the script.
#[verifier::rlimit(40)]
pub proof fn law_flush_sends_script(
    m: EngineModel,
    now: u32,
    base: u32,
    script: Seq<(u8, Seq<u8>)>,
)
    requires
        m.wf(),
        m.records(base, script),
    ensures
        m.flushed(now).records(base, m.script_after(script)),
        all_genuine(m.outgoing(now), base, m.script_after(script)),
        all_genuine(wire_laws::as_read(m.outgoing(now)), base, m.script_after(script)),
{
    let p = m.prepared(now);
    let pass = m.pass(now);
    let longer = m.script_after(script);
    lemma_prepared_records(m, now, base, script);
    let after = m.flushed(now);
    assert(after.snd_buf == pass.swept(p.snd_buf));
    assert(after.snd_nxt == p.snd_nxt);
    assert forall|i: int| 0 <= i < after.snd_buf.len() implies one_of(
        #[trigger] after.snd_buf[i],
        p.snd_buf,
    ) by {
        assert(after.snd_buf[i] == pass.tried(p.snd_buf[i]));
    }
    lemma_fewer_records(p, after, base, longer);
    flushing::lemma_reach(pass, p.snd_buf);
    let part = p.snd_buf.take(pass.reach(p.snd_buf) as int);
    assert forall|i: int| 0 <= i < part.len() implies (#[trigger] part[i]).len_matches()
        && part[i].data.len() <= m.mss() by {
        assert(p.snd_buf[i].len_matches());
    }
    wire_laws::lemma_transmitted(pass, part, m.mss());
    let control = m.control_segments(now);
    let all = m.outgoing(now);
    assert forall|i: int|
        0 <= i < all.len() && (#[trigger] all[i]).header.cmd
            == constants::IKCP_CMD_PUSH implies genuine(all[i], base, longer) by {
        if i < control.len() {
            assert(all[i] == control[i]);
        } else {
            let t = pass.transmitted(part);
            assert(all[i] == t[i - control.len()]);
            let j = choose|j: int|
                0 <= j < part.len() && pass.tried(part[j]) == t[i - control.len()]
                    && !(pass.decide(part[j]) is Quiet);
            assert(part[j] == p.snd_buf[j]);
            lemma_recorded_genuine(p, j, base, longer);
            let k = longer.len() - sequence::distance(p.snd_buf[j].header.sn, p.snd_nxt);
            assert(scripted(all[i], base, longer, k));
        }
    }
    let read = wire_laws::as_read(all);
    assert forall|i: int|
        0 <= i < read.len() && (#[trigger] read[i]).header.cmd
            == constants::IKCP_CMD_PUSH implies genuine(read[i], base, longer) by {
        assert(all[i].header.cmd == constants::IKCP_CMD_PUSH);
        let k = choose|k: int| scripted(all[i], base, longer, k);
        assert(scripted(read[i], base, longer, k));
    }
}

/// Moving on what is due leaves nothing more to move on.
proof fn lemma_pumped_twice(m: EngineModel)
    requires
        m.receive_wf(),
    ensures
        m.pumped().pumped() == m.pumped(),
{
    let n = receiving::run_len(m.rcv_buf, m.rcv_nxt, m.room()) as int;
    receiving::lemma_run_len(m.rcv_buf, m.rcv_nxt, m.room());
    lemma_run_ends(m.rcv_buf, m.rcv_nxt, m.room());
    let p = m.pumped();
    assert(receiving::run_len(p.rcv_buf, p.rcv_nxt, p.room()) == 0);
    assert(p.rcv_queue + p.rcv_buf.take(0) =~= p.rcv_queue);
    assert(p.rcv_buf.skip(0) =~= p.rcv_buf);
    assert(p.pumped() =~= p);
}

/// After a run there is no further run.
pub proof fn lemma_run_ends(buf: Seq<SegmentModel>, nxt: u32, room: int)
    requires
        room >= 0,
    ensures
        ({
            let n = receiving::run_len(buf, nxt, room) as int;
            receiving::run_len(buf.skip(n), sequence::advanced(nxt, n), room - n) == 0
        }),
    decreases buf.len(),
{
    let n = receiving::run_len(buf, nxt, room) as int;
    if buf.len() == 0 || room <= 0 || buf[0].header.sn != nxt {
        assert(buf.skip(0) =~= buf);
    } else {
        lemma_run_ends(buf.skip(1), sequence::advanced(nxt, 1), room - 1);
        receiving::lemma_run_len(buf, nxt, room);
        assert(buf.skip(1).skip(n - 1) =~= buf.skip(n));
        receiving::lemma_advanced_twice(nxt, 1, n - 1);
    }
}

/// A data segment that comes a second time changes nothing in the receive side.
pub proof fn law_repeated_segment_is_ignored(m: EngineModel, seg: SegmentModel)
    requires
        m.receive_wf(),
    ensures
        m.stored(seg).stored(seg) == m.stored(seg),
{
    let once = m.stored(seg);
    let sn = seg.header.sn;
    let nxt = m.rcv_nxt;
    if m.awaits(sn) {
        receiving::lemma_stored_wf(m, seg);
        let full = if receiving::holds(m.rcv_buf, sn) {
            m
        } else {
            EngineModel {
                rcv_buf: m.rcv_buf.insert(receiving::slot(m.rcv_buf, nxt, sn) as int, seg),
                ..m
            }
        };
        receiving::lemma_slot(m.rcv_buf, nxt, sn);
        if !receiving::holds(m.rcv_buf, sn) {
            receiving::lemma_insert_in_order(m.rcv_buf, nxt, seg);
            assert(full.rcv_buf[receiving::slot(m.rcv_buf, nxt, sn) as int].header.sn == sn);
        }
        assert(full.receive_wf());
        assert(receiving::holds(full.rcv_buf, sn));
        assert(once == full.pumped());
        lemma_pumped_twice(full);
        let i = choose|i: int| 0 <= i < full.rcv_buf.len() && (#[trigger] full.rcv_buf[i]).header.sn
            == sn;
        let n = receiving::run_len(full.rcv_buf, nxt, full.room()) as int;
        receiving::lemma_run_len(full.rcv_buf, nxt, full.room());
        if i < n {
            receiving::lemma_run_numbers(full.rcv_buf, nxt, full.room(), i);
            receiving::lemma_run_position(full.rcv_buf, nxt, full.room(), i);
            receiving::lemma_run_position(full.rcv_buf, nxt, full.room(), n - 1);
            assert(n <= sequence::half_circle());
            lemma_behind(nxt, n, sn, i);
            assert(!once.awaits(sn));
        } else {
            assert(once.rcv_buf[i - n] == full.rcv_buf[i]);
            assert(receiving::holds(once.rcv_buf, sn));
        }
    }
}

/// What lies within the first `n` numbers comes before the number after them.
pub proof fn lemma_behind(nxt: u32, n: int, sn: u32, i: int)
    requires
        0 <= i < n <= sequence::half_circle(),
        sequence::distance(nxt, sn) == i,
    ensures
        sequence::before(sn, sequence::advanced(nxt, n)),
{
}

} // verus!
