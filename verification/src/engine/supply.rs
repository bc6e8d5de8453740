//! Nothing is lost for good: what the receiver lacks, the sender still holds.
//!
//! As in the laws of delivery, the script of a conversation is the list of all data segments
//! that the sender has numbered so far, and `taken` says how many of them the receiving
//! application has taken. An acknowledgement is honest if the receiver has what it is about; a
//! sender that hears only honest ones drops no segment too early.
use super::EngineModel;
use crate::config::KcpCoreConfig;
use crate::engine::control_laws;
use crate::engine::delivery;
use crate::engine::flushing;
use crate::engine::input;
use crate::engine::receiving;
use crate::engine::wire_laws;
use crate::protocol::constants;
use crate::protocol::SegmentModel;
use crate::sequence;
use vstd::prelude::*;

verus! {

impl EngineModel {
    /// A receiver has segment `k` of the script: it has put it in order, or holds it for later.
    pub open spec fn has(self, base: u32, taken: int, k: int) -> bool {
        k < self.progress(taken) || receiving::holds(self.rcv_buf, sequence::advanced(base, k))
    }

    /// A sender has segment `k` of the script in flight.
    pub open spec fn keeps(self, base: u32, k: int) -> bool {
        receiving::holds(self.snd_buf, sequence::advanced(base, k))
    }

    /// No segment waits for its turn that is due, unless the application's queue is full.
    pub open spec fn caught_up(self) -> bool {
        receiving::run_len(self.rcv_buf, self.rcv_nxt, self.room()) == 0
    }

    /// What the receiver expects next is where it stands on the script.
    pub open spec fn stands(self, base: u32, taken: int) -> bool {
        &&& 0 <= self.progress(taken)
        &&& self.rcv_nxt == sequence::advanced(base, self.progress(taken))
    }
}

/// Everything in flight is data of the engine's conversation. That is so unless the conversation
/// is changed while data is in flight.
pub open spec fn in_conversation(m: EngineModel) -> bool {
    forall|i: int|
        0 <= i < m.snd_buf.len() ==> (#[trigger] m.snd_buf[i]).header.cmd
            == constants::IKCP_CMD_PUSH && m.snd_buf[i].header.conv == m.conv
}

/// Each of the first `len` segments of the script is with the receiver, or still with the
/// sender.
pub open spec fn supplied(
    s: EngineModel,
    b: EngineModel,
    base: u32,
    len: int,
    taken: int,
) -> bool {
    forall|k: int| 0 <= k < len ==> (#[trigger] b.has(base, taken, k)) || s.keeps(base, k)
}

/// Moving on what is due loses nothing.
proof fn lemma_pumped_has(m: EngineModel, base: u32, taken: int, k: int)
    requires
        m.receive_wf(),
        m.stands(base, taken),
        0 <= k < m.progress(taken) + sequence::half_circle(),
        m.has(base, taken, k),
    ensures
        m.pumped().has(base, taken, k),
        m.pumped().progress(taken) >= m.progress(taken),
        m.pumped().caught_up(),
{
    let n = m.progress(taken);
    let nxt = m.rcv_nxt;
    let r = receiving::run_len(m.rcv_buf, nxt, m.room()) as int;
    let after = m.pumped();
    receiving::lemma_run_len(m.rcv_buf, nxt, m.room());
    delivery::lemma_run_ends(m.rcv_buf, nxt, m.room());
    assert(after.progress(taken) == n + r);
    if k >= n {
        let sn = sequence::advanced(base, k);
        let i = choose|i: int| 0 <= i < m.rcv_buf.len() && (#[trigger] m.rcv_buf[i]).header.sn == sn;
        if i < r {
            receiving::lemma_run_position(m.rcv_buf, nxt, m.room(), i);
            delivery::lemma_script_place(base, n, k);
        } else {
            assert(after.rcv_buf[i - r].header.sn == sn);
        }
    }
}

/// Taking in a data segment loses nothing.
pub proof fn lemma_stored_has(m: EngineModel, seg: SegmentModel, base: u32, taken: int, k: int)
    requires
        m.receive_wf(),
        m.stands(base, taken),
        0 <= k < m.progress(taken) + sequence::half_circle(),
        m.has(base, taken, k) || (m.awaits(seg.header.sn) && seg.header.sn == sequence::advanced(
            base,
            k,
        )),
    ensures
        m.stored(seg).has(base, taken, k),
        m.stored(seg).progress(taken) >= m.progress(taken),
        m.caught_up() ==> m.stored(seg).caught_up(),
{
    let sn = seg.header.sn;
    if m.awaits(sn) {
        if receiving::holds(m.rcv_buf, sn) {
            lemma_pumped_has(m, base, taken, k);
        } else {
            let p = receiving::slot(m.rcv_buf, m.rcv_nxt, sn) as int;
            receiving::lemma_slot(m.rcv_buf, m.rcv_nxt, sn);
            receiving::lemma_insert_in_order(m.rcv_buf, m.rcv_nxt, seg);
            let mid = EngineModel { rcv_buf: m.rcv_buf.insert(p, seg), ..m };
            assert(mid.rcv_buf[p] == seg);
            if k >= m.progress(taken) && sn != sequence::advanced(base, k) {
                let i = choose|i: int|
                    0 <= i < m.rcv_buf.len() && (#[trigger] m.rcv_buf[i]).header.sn
                        == sequence::advanced(base, k);
                if i < p {
                    assert(mid.rcv_buf[i] == m.rcv_buf[i]);
                } else {
                    assert(mid.rcv_buf[i + 1] == m.rcv_buf[i]);
                }
            }
            assert(mid.has(base, taken, k));
            lemma_pumped_has(mid, base, taken, k);
        }
    }
}

/// Taking in a segment loses nothing that a receiver has.
pub proof fn lemma_absorbed_has(
    m: EngineModel,
    seg: SegmentModel,
    now: u32,
    base: u32,
    taken: int,
    k: int,
)
    requires
        m.wf(),
        m.stands(base, taken),
        0 <= k < m.progress(taken) + sequence::half_circle(),
        m.has(base, taken, k),
    ensures
        m.absorbed(seg, now).has(base, taken, k),
        m.absorbed(seg, now).progress(taken) >= m.progress(taken),
        m.caught_up() ==> m.absorbed(seg, now).caught_up(),
{
    let t = m.told(seg.header);
    let a = EngineModel { ack_list: t.ack_list.push((seg.header.sn, seg.header.ts)), ..t };
    assert(a.receive_wf());
    assert(a.has(base, taken, k));
    lemma_stored_has(a, seg, base, taken, k);
    let after = m.absorbed(seg, now);
    if seg.header.cmd != constants::IKCP_CMD_PUSH {
        assert(after.rcv_queue == m.rcv_queue);
        assert(after.rcv_buf == m.rcv_buf);
        assert(after.rcv_nxt == m.rcv_nxt);
        assert(after.wnd.rcv == m.wnd.rcv);
    }
}

/// What a packet leaves alone.
pub proof fn lemma_absorbed_frame(m: EngineModel, seg: SegmentModel, now: u32)
    ensures
        m.absorbed(seg, now).conv == m.conv,
        m.absorbed(seg, now).wnd.rcv == m.wnd.rcv,
{
}

/// Taking in segments of the script loses nothing that a receiver has.
pub proof fn lemma_digest_has(
    m: EngineModel,
    segs: Seq<SegmentModel>,
    newest: Option<u32>,
    now: u32,
    base: u32,
    script: Seq<(u8, Seq<u8>)>,
    taken: int,
    k: int,
)
    requires
        m.wf(),
        m.follows(base, script, taken),
        delivery::all_genuine(segs, base, script),
        0 <= k < m.progress(taken) + sequence::half_circle(),
        m.has(base, taken, k),
    ensures
        ({
            let e = input::digest(m, segs, newest, now).engine;
            &&& e.has(base, taken, k)
            &&& e.progress(taken) >= m.progress(taken)
            &&& m.caught_up() ==> e.caught_up()
            &&& e.conv == m.conv
            &&& e.wnd.rcv == m.wnd.rcv
        }),
    decreases segs.len(),
{
    if segs.len() > 0 && segs[0].header.conv == m.conv {
        let next = m.absorbed(segs[0], now);
        assert(segs[0].header.cmd == constants::IKCP_CMD_PUSH ==> delivery::genuine(
            segs[0],
            base,
            script,
        ));
        delivery::lemma_absorbed_follows(m, segs[0], now, base, script, taken);
        input::lemma_absorbed_wf(m, segs[0], now);
        lemma_absorbed_frame(m, segs[0], now);
        lemma_absorbed_has(m, segs[0], now, base, taken, k);
        let rest = segs.skip(1);
        lemma_rest_genuine(segs, base, script);
        lemma_digest_has(
            next,
            rest,
            input::newest_ack(newest, segs[0].header),
            now,
            base,
            script,
            taken,
            k,
        );
    }
}

/// Without the first segment, the others are still of the script.
pub proof fn lemma_rest_genuine(segs: Seq<SegmentModel>, base: u32, script: Seq<(u8, Seq<u8>)>)
    requires
        segs.len() > 0,
        delivery::all_genuine(segs, base, script),
    ensures
        delivery::all_genuine(segs.skip(1), base, script),
{
    let rest = segs.skip(1);
    assert forall|i: int|
        0 <= i < rest.len() && (#[trigger] rest[i]).header.cmd
            == constants::IKCP_CMD_PUSH implies delivery::genuine(rest[i], base, script) by {
        assert(rest[i] == segs[i + 1]);
    }
}

/// A packet that adds nothing to the receive side after its segments have been taken in.
pub proof fn lemma_fed_receive_side(m: EngineModel, packet: Seq<u8>, now: u32)
    ensures
        ({
            let e = input::digest(m, input::parse_packet(packet), None, now).engine;
            let after = m.fed(packet, now);
            packet.len() >= 24 ==> after.rcv_queue == e.rcv_queue && after.rcv_buf == e.rcv_buf
                && after.rcv_nxt == e.rcv_nxt && after.wnd.rcv == e.wnd.rcv && after.conv == e.conv
        }),
{
}

/// Whatever packet of the sender comes in, a receiver keeps every segment that it has, and
/// moves on every segment that is due while there is room.
pub proof fn law_receiving_loses_nothing(
    m: EngineModel,
    packet: Seq<u8>,
    now: u32,
    base: u32,
    script: Seq<(u8, Seq<u8>)>,
    taken: int,
    k: int,
)
    requires
        m.wf(),
        m.follows(base, script, taken),
        delivery::all_genuine(input::parse_packet(packet), base, script),
        0 <= k < m.progress(taken) + sequence::half_circle(),
        m.has(base, taken, k),
    ensures
        m.fed(packet, now).has(base, taken, k),
        m.fed(packet, now).progress(taken) >= m.progress(taken),
        m.caught_up() ==> m.fed(packet, now).caught_up(),
        m.fed(packet, now).wnd.rcv == m.wnd.rcv,
        m.fed(packet, now).conv == m.conv,
{
    lemma_digest_has(m, input::parse_packet(packet), None, now, base, script, taken, k);
    lemma_fed_receive_side(m, packet, now);
}

/// When the application takes a message, the receiver still has every other segment, and moves
/// on every segment that is due then.
pub proof fn law_taking_loses_nothing(m: EngineModel, base: u32, taken: int, k: int)
    requires
        m.wf(),
        m.stands(base, taken),
        0 <= taken,
        0 <= k < m.progress(taken) + sequence::half_circle(),
        m.has(base, taken, k),
    ensures
        ({
            let after = m.received();
            let n = receiving::message_len(m.rcv_queue) as int;
            &&& after.has(base, taken + n, k)
            &&& after.progress(taken + n) >= m.progress(taken)
            &&& after.caught_up()
        }),
{
    let n = receiving::message_len(m.rcv_queue) as int;
    receiving::lemma_message_len(m.rcv_queue);
    let mid = EngineModel {
        rcv_queue: m.rcv_queue.skip(n),
        stats: crate::protocol::KcpStats {
            bytes_received: ((m.stats.bytes_received + m.first_message().len())
                % 0x1_0000_0000_0000_0000) as u64,
            ..m.stats
        },
        ..m
    };
    assert(mid.progress(taken + n) == m.progress(taken));
    assert(mid.has(base, taken + n, k));
    lemma_pumped_has(mid, base, taken + n, k);
    let after = m.received();
    let pumped = mid.pumped();
    assert(after.rcv_queue == pumped.rcv_queue);
    assert(after.rcv_buf == pumped.rcv_buf);
    assert(after.rcv_nxt == pumped.rcv_nxt);
    assert(after.wnd == pumped.wnd);
}

/// Whatever packet of the sender comes in, each segment stays with the receiver or the sender.
pub proof fn law_receiving_keeps_supply(
    s: EngineModel,
    b: EngineModel,
    packet: Seq<u8>,
    now: u32,
    base: u32,
    script: Seq<(u8, Seq<u8>)>,
    taken: int,
)
    requires
        b.wf(),
        b.follows(base, script, taken),
        delivery::all_genuine(input::parse_packet(packet), base, script),
        supplied(s, b, base, script.len() as int, taken),
    ensures
        supplied(s, b.fed(packet, now), base, script.len() as int, taken),
{
    let after = b.fed(packet, now);
    assert forall|k: int| 0 <= k < script.len() implies (#[trigger] after.has(base, taken, k))
        || s.keeps(base, k) by {
        if b.has(base, taken, k) {
            law_receiving_loses_nothing(b, packet, now, base, script, taken, k);
        }
    }
}

/// When the application takes a message, each segment stays with the receiver or the sender.
pub proof fn law_taking_keeps_supply(
    s: EngineModel,
    b: EngineModel,
    base: u32,
    script: Seq<(u8, Seq<u8>)>,
    taken: int,
)
    requires
        b.wf(),
        b.follows(base, script, taken),
        supplied(s, b, base, script.len() as int, taken),
    ensures
        supplied(
            s,
            b.received(),
            base,
            script.len() as int,
            taken + receiving::message_len(b.rcv_queue),
        ),
{
    let after = b.received();
    let n = receiving::message_len(b.rcv_queue) as int;
    assert forall|k: int| 0 <= k < script.len() implies (#[trigger] after.has(
        base,
        taken + n,
        k,
    )) || s.keeps(base, k) by {
        if b.has(base, taken, k) {
            law_taking_loses_nothing(b, base, taken, k);
        }
    }
}

/// Nothing is missing between two new engines.
pub proof fn law_fresh_is_supplied(
    conv: u32,
    s_config: KcpCoreConfig,
    b_config: KcpCoreConfig,
    now: u32,
    t: u32,
)
    ensures
        ({
            let s = EngineModel::fresh(conv, s_config, now);
            let b = EngineModel::fresh(conv, b_config, t);
            &&& supplied(s, b, 0, 0, 0)
            &&& in_conversation(s)
            &&& b.caught_up()
            &&& owes_honestly(b, 0, 0, 0)
        }),
{
}

/// What either engine does on its own account, apart from a flush of the sender, leaves each
/// segment with the receiver or the sender.
pub proof fn law_other_work_keeps_supply(
    s: EngineModel,
    b: EngineModel,
    data: Seq<u8>,
    now: u32,
    base: u32,
    len: int,
    taken: int,
)
    requires
        supplied(s, b, base, len, taken),
    ensures
        supplied(s.queued(data), b, base, len, taken),
        supplied(s.received(), b, base, len, taken),
        supplied(s.nudged(now), b, base, len, taken),
        supplied(s, b.queued(data), base, len, taken),
        supplied(s, b.flushed(now), base, len, taken),
        supplied(s, b.updated(now), base, len, taken),
        supplied(s, b.nudged(now), base, len, taken),
{
    lemma_same_supply(s, b, s.queued(data), b, base, len, taken);
    lemma_same_supply(s, b, s.received(), b, base, len, taken);
    lemma_same_supply(s, b, s.nudged(now), b, base, len, taken);
    lemma_same_supply(s, b, s, b.queued(data), base, len, taken);
    lemma_same_supply(s, b, s, b.flushed(now), base, len, taken);
    lemma_same_supply(s, b, s, b.updated(now), base, len, taken);
    lemma_same_supply(s, b, s, b.nudged(now), base, len, taken);
}

/// The supply depends on what is in flight and on the receive side alone.
proof fn lemma_same_supply(
    s: EngineModel,
    b: EngineModel,
    s2: EngineModel,
    b2: EngineModel,
    base: u32,
    len: int,
    taken: int,
)
    requires
        supplied(s, b, base, len, taken),
        s2.snd_buf == s.snd_buf,
        b2.rcv_queue == b.rcv_queue,
        b2.rcv_buf == b.rcv_buf,
    ensures
        supplied(s2, b2, base, len, taken),
{
    assert forall|k: int| 0 <= k < len implies (#[trigger] b2.has(base, taken, k)) || s2.keeps(
        base,
        k,
    ) by {
        assert(b.has(base, taken, k) || s.keeps(base, k));
    }
}

/// What a flush holds in flight has the numbers that it prepared.
proof fn lemma_flushed_numbers(m: EngineModel, now: u32, i: int)
    requires
        0 <= i < m.prepared(now).snd_buf.len(),
    ensures
        m.flushed(now).snd_buf.len() == m.prepared(now).snd_buf.len(),
        m.flushed(now).snd_buf[i].header.sn == m.prepared(now).snd_buf[i].header.sn,
{
    let p = m.prepared(now);
    let pass = m.pass(now);
    assert(m.flushed(now).snd_buf == pass.swept(p.snd_buf));
    assert(pass.swept(p.snd_buf)[i] == pass.tried(p.snd_buf[i]));
}

/// What a flush prepares holds everything that was in flight, and every segment that it numbers.
proof fn lemma_prepared_keeps(
    m: EngineModel,
    now: u32,
    base: u32,
    script: Seq<(u8, Seq<u8>)>,
    k: int,
)
    requires
        m.wf(),
        m.records(base, script),
        0 <= k < m.script_after(script).len(),
        m.keeps(base, k) || k >= script.len(),
    ensures
        m.prepared(now).keeps(base, k),
{
    let p = m.prepared(now);
    let n = m.movable();
    let len = script.len() as int;
    assert(m.script_after(script).len() == len + n);
    let sn = sequence::advanced(base, k);
    if m.keeps(base, k) {
        let i = choose|i: int| 0 <= i < m.snd_buf.len() && (#[trigger] m.snd_buf[i]).header.sn == sn;
        assert(p.snd_buf[i] == m.snd_buf[i]);
    } else {
        let j = k - len;
        receiving::lemma_advanced_twice(base, len, j);
        let i = m.snd_buf.len() + j;
        assert(p.snd_buf[i].header.sn == sequence::advanced(m.snd_nxt, j));
    }
}

/// A flush takes nothing out of flight, and what it numbers is in flight: each segment stays
/// with the receiver or the sender.
pub proof fn law_flush_keeps_supply(
    s: EngineModel,
    b: EngineModel,
    now: u32,
    base: u32,
    script: Seq<(u8, Seq<u8>)>,
    taken: int,
)
    requires
        s.wf(),
        s.records(base, script),
        supplied(s, b, base, script.len() as int, taken),
    ensures
        supplied(s.prepared(now), b, base, s.script_after(script).len() as int, taken),
        supplied(s.flushed(now), b, base, s.script_after(script).len() as int, taken),
{
    let p = s.prepared(now);
    let after = s.flushed(now);
    let longer = s.script_after(script);
    assert forall|k: int| 0 <= k < longer.len() implies (#[trigger] b.has(base, taken, k)) || (
    p.keeps(base, k) && after.keeps(base, k)) by {
        if !b.has(base, taken, k) {
            lemma_prepared_keeps(s, now, base, script, k);
            let i = choose|i: int|
                0 <= i < p.snd_buf.len() && (#[trigger] p.snd_buf[i]).header.sn
                    == sequence::advanced(base, k);
            lemma_flushed_numbers(s, now, i);
            assert(after.snd_buf[i].header.sn == sequence::advanced(base, k));
        }
    }
}

/// A segment of the receiver says truly that it expects segment `u` of the script next, or has
/// expected it before.
pub open spec fn tells(
    b: EngineModel,
    seg: SegmentModel,
    base: u32,
    oldest: int,
    taken: int,
    u: int,
) -> bool {
    &&& 0 <= oldest <= u <= b.progress(taken)
    &&& seg.header.una == sequence::advanced(base, u)
}

/// The number `sn` is that of segment `j` of the script, which the receiver has.
pub open spec fn confirms(
    b: EngineModel,
    sn: u32,
    base: u32,
    oldest: int,
    taken: int,
    j: int,
) -> bool {
    &&& 0 <= oldest <= j < b.progress(taken) + sequence::half_circle()
    &&& sn == sequence::advanced(base, j)
    &&& b.has(base, taken, j)
}

/// The receiver has the segment that an acknowledgement of `sn` is about.
pub open spec fn confirmed(b: EngineModel, sn: u32, base: u32, oldest: int, taken: int) -> bool {
    exists|j: int| confirms(b, sn, base, oldest, taken, j)
}

/// What a segment of the receiver says about the segments that it has received is true of it,
/// and is about none before `oldest`.
pub open spec fn honest(
    b: EngineModel,
    seg: SegmentModel,
    base: u32,
    oldest: int,
    taken: int,
) -> bool {
    &&& exists|u: int| tells(b, seg, base, oldest, taken, u)
    &&& seg.header.cmd == constants::IKCP_CMD_ACK ==> confirmed(
        b,
        seg.header.sn,
        base,
        oldest,
        taken,
    )
}

/// All of these segments are honest.
pub open spec fn all_honest(
    b: EngineModel,
    segs: Seq<SegmentModel>,
    base: u32,
    oldest: int,
    taken: int,
) -> bool {
    forall|i: int| 0 <= i < segs.len() ==> honest(b, #[trigger] segs[i], base, oldest, taken)
}

/// The acknowledgements that a receiver owes are for segments that it has.
pub open spec fn owes_honestly(b: EngineModel, base: u32, oldest: int, taken: int) -> bool {
    forall|i: int|
        0 <= i < b.ack_list.len() ==> confirmed(
            b,
            (#[trigger] b.ack_list[i]).0,
            base,
            oldest,
            taken,
        )
}

/// None of the data segments is older than `oldest`.
pub open spec fn all_since(
    segs: Seq<SegmentModel>,
    base: u32,
    script: Seq<(u8, Seq<u8>)>,
    oldest: int,
) -> bool {
    forall|i: int|
        0 <= i < segs.len() && (#[trigger] segs[i]).header.cmd == constants::IKCP_CMD_PUSH
            ==> exists|k: int|
            oldest <= k && #[trigger] delivery::scripted(segs[i], base, script, k)
}

/// Counting up to different places less than half the circle apart leads to different numbers,
/// of which the nearer one does not come after the farther one.
proof fn lemma_places_apart(base: u32, u: int, k: int)
    requires
        0 <= u <= k < u + sequence::half_circle(),
    ensures
        !sequence::before(sequence::advanced(base, k), sequence::advanced(base, u)),
        u < k ==> sequence::advanced(base, k) != sequence::advanced(base, u),
{
    receiving::lemma_advanced_twice(base, u, k - u);
    sequence::law_distance_of_advanced(sequence::advanced(base, u), k - u);
}

/// An honest segment leaves in flight what the receiver lacks.
proof fn lemma_absorbed_keeps(
    s: EngineModel,
    seg: SegmentModel,
    now: u32,
    b: EngineModel,
    base: u32,
    oldest: int,
    taken: int,
    k: int,
)
    requires
        honest(b, seg, base, oldest, taken),
        0 <= k < oldest + sequence::half_circle(),
        s.keeps(base, k),
        !b.has(base, taken, k),
    ensures
        s.absorbed(seg, now).keeps(base, k),
{
    let sn = sequence::advanced(base, k);
    let i = choose|i: int| 0 <= i < s.snd_buf.len() && (#[trigger] s.snd_buf[i]).header.sn == sn;
    let u = choose|u: int| tells(b, seg, base, oldest, taken, u);
    lemma_places_apart(base, u, k);
    if seg.header.cmd == constants::IKCP_CMD_ACK && seg.header.sn == sn {
        let j = choose|j: int| confirms(b, seg.header.sn, base, oldest, taken, j);
        if j < b.progress(taken) {
            lemma_places_apart(base, j, k);
        }
        assert(false);
    }
    control_laws::law_kept_until_acknowledged(s, seg, now, i);
    let after = s.absorbed(seg, now).snd_buf;
    let c = choose|c: int| 0 <= c < after.len() && after[c] == s.snd_buf[i];
    assert(after[c].header.sn == sn);
}

/// Honest segments leave in flight what the receiver lacks.
proof fn lemma_digest_keeps(
    s: EngineModel,
    segs: Seq<SegmentModel>,
    newest: Option<u32>,
    now: u32,
    b: EngineModel,
    base: u32,
    oldest: int,
    taken: int,
    k: int,
)
    requires
        all_honest(b, segs, base, oldest, taken),
        0 <= k < oldest + sequence::half_circle(),
        s.keeps(base, k),
        !b.has(base, taken, k),
    ensures
        input::digest(s, segs, newest, now).engine.keeps(base, k),
    decreases segs.len(),
{
    if segs.len() > 0 && segs[0].header.conv == s.conv {
        assert(honest(b, segs[0], base, oldest, taken));
        lemma_absorbed_keeps(s, segs[0], now, b, base, oldest, taken, k);
        let rest = segs.skip(1);
        assert forall|i: int| 0 <= i < rest.len() implies honest(
            b,
            #[trigger] rest[i],
            base,
            oldest,
            taken,
        ) by {
            assert(rest[i] == segs[i + 1]);
        }
        lemma_digest_keeps(
            s.absorbed(segs[0], now),
            rest,
            input::newest_ack(newest, segs[0].header),
            now,
            b,
            base,
            oldest,
            taken,
            k,
        );
    }
}

/// Whatever the receiver has ever said, the sender drops no segment on it that the receiver
/// lacks: each segment stays with the receiver or the sender.
pub proof fn law_honest_packets_keep_supply(
    s: EngineModel,
    b: EngineModel,
    packet: Seq<u8>,
    now: u32,
    base: u32,
    len: int,
    oldest: int,
    taken: int,
)
    requires
        all_honest(b, input::parse_packet(packet), base, oldest, taken),
        len - oldest <= sequence::half_circle(),
        supplied(s, b, base, len, taken),
    ensures
        supplied(s.fed(packet, now), b, base, len, taken),
{
    let segs = input::parse_packet(packet);
    let after = s.fed(packet, now);
    assert forall|k: int| 0 <= k < len implies (#[trigger] b.has(base, taken, k)) || after.keeps(
        base,
        k,
    ) by {
        if !b.has(base, taken, k) {
            lemma_digest_keeps(s, segs, None, now, b, base, oldest, taken, k);
            let e = input::digest(s, segs, None, now).engine;
            let sn = sequence::advanced(base, k);
            let i = choose|i: int| 0 <= i < e.snd_buf.len() && (#[trigger] e.snd_buf[i]).header.sn
                == sn;
            if packet.len() >= 24 {
                assert(after.snd_buf.len() == e.snd_buf.len());
                assert(after.snd_buf[i].header.sn == e.snd_buf[i].header.sn);
            }
        }
    }
}

/// What has been confirmed stays confirmed while the receiver loses nothing.
proof fn lemma_confirmed_lasts(
    b: EngineModel,
    after: EngineModel,
    sn: u32,
    base: u32,
    oldest: int,
    taken: int,
    later: int,
)
    requires
        confirmed(b, sn, base, oldest, taken),
        after.progress(later) >= b.progress(taken),
        forall|k: int|
            0 <= k < b.progress(taken) + sequence::half_circle() && (#[trigger] b.has(
                base,
                taken,
                k,
            )) ==> after.has(base, later, k),
    ensures
        confirmed(after, sn, base, oldest, later),
{
    let j = choose|j: int| confirms(b, sn, base, oldest, taken, j);
    assert(b.has(base, taken, j));
    assert(confirms(after, sn, base, oldest, later, j));
}

/// An acknowledgement that becomes owed is for a segment that the receiver has.
proof fn lemma_absorbed_owes(
    m: EngineModel,
    seg: SegmentModel,
    now: u32,
    base: u32,
    script: Seq<(u8, Seq<u8>)>,
    oldest: int,
    taken: int,
    k: int,
)
    requires
        m.wf(),
        m.follows(base, script, taken),
        0 <= oldest,
        owes_honestly(m, base, oldest, taken),
        seg.header.cmd == constants::IKCP_CMD_PUSH ==> oldest <= k && delivery::scripted(
            seg,
            base,
            script,
            k,
        ),
    ensures
        owes_honestly(m.absorbed(seg, now), base, oldest, taken),
        m.absorbed(seg, now).progress(taken) >= m.progress(taken),
{
    let after = m.absorbed(seg, now);
    let n = m.progress(taken);
    assert forall|j: int|
        0 <= j < n + sequence::half_circle() && (#[trigger] m.has(
            base,
            taken,
            j,
        )) implies after.has(base, taken, j) by {
        lemma_absorbed_has(m, seg, now, base, taken, j);
    }
    lemma_absorbed_grows(m, seg, now, base, taken);
    assert forall|i: int| 0 <= i < after.ack_list.len() implies confirmed(
        after,
        (#[trigger] after.ack_list[i]).0,
        base,
        oldest,
        taken,
    ) by {
        if i < m.ack_list.len() {
            assert(after.ack_list[i] == m.ack_list[i]);
            lemma_confirmed_lasts(m, after, m.ack_list[i].0, base, oldest, taken, taken);
        } else {
            let sn = seg.header.sn;
            assert(after.ack_list[i].0 == sn);
            let t = m.told(seg.header);
            let a = EngineModel { ack_list: t.ack_list.push((sn, seg.header.ts)), ..t };
            if k >= n {
                lemma_places_apart(base, n, k);
                assert(after == a.stored(seg));
                lemma_stored_has(a, seg, base, taken, k);
            }
            assert(confirms(after, sn, base, oldest, taken, k));
        }
    }
}

/// Taking in a segment never sets a receiver back.
proof fn lemma_absorbed_grows(m: EngineModel, seg: SegmentModel, now: u32, base: u32, taken: int)
    requires
        m.wf(),
        m.stands(base, taken),
    ensures
        m.absorbed(seg, now).progress(taken) >= m.progress(taken),
{
    let t = m.told(seg.header);
    let a = EngineModel { ack_list: t.ack_list.push((seg.header.sn, seg.header.ts)), ..t };
    if m.progress(taken) > 0 {
        lemma_absorbed_has(m, seg, now, base, taken, 0);
    }
}

/// Acknowledgements that become owed are for segments that the receiver has.
proof fn lemma_digest_owes(
    m: EngineModel,
    segs: Seq<SegmentModel>,
    newest: Option<u32>,
    now: u32,
    base: u32,
    script: Seq<(u8, Seq<u8>)>,
    oldest: int,
    taken: int,
)
    requires
        m.wf(),
        m.follows(base, script, taken),
        0 <= oldest,
        owes_honestly(m, base, oldest, taken),
        all_since(segs, base, script, oldest),
    ensures
        owes_honestly(input::digest(m, segs, newest, now).engine, base, oldest, taken),
    decreases segs.len(),
{
    if segs.len() > 0 && segs[0].header.conv == m.conv {
        let seg = segs[0];
        let k = choose|k: int| oldest <= k && #[trigger] delivery::scripted(seg, base, script, k);
        if seg.header.cmd == constants::IKCP_CMD_PUSH {
            assert(segs[0].header.cmd == constants::IKCP_CMD_PUSH);
            assert(delivery::genuine(seg, base, script));
        }
        delivery::lemma_absorbed_follows(m, seg, now, base, script, taken);
        input::lemma_absorbed_wf(m, seg, now);
        lemma_absorbed_owes(m, seg, now, base, script, oldest, taken, k);
        let rest = segs.skip(1);
        assert forall|i: int|
            0 <= i < rest.len() && (#[trigger] rest[i]).header.cmd
                == constants::IKCP_CMD_PUSH implies exists|k: int|
            oldest <= k && #[trigger] delivery::scripted(rest[i], base, script, k) by {
            assert(rest[i] == segs[i + 1]);
        }
        lemma_digest_owes(
            m.absorbed(seg, now),
            rest,
            input::newest_ack(newest, seg.header),
            now,
            base,
            script,
            oldest,
            taken,
        );
    }
}

/// Whatever packet of the sender comes in, a receiver owes acknowledgements only for segments
/// that it has.
pub proof fn law_receiving_owes_honestly(
    m: EngineModel,
    packet: Seq<u8>,
    now: u32,
    base: u32,
    script: Seq<(u8, Seq<u8>)>,
    oldest: int,
    taken: int,
)
    requires
        m.wf(),
        m.follows(base, script, taken),
        0 <= oldest,
        owes_honestly(m, base, oldest, taken),
        all_since(input::parse_packet(packet), base, script, oldest),
    ensures
        owes_honestly(m.fed(packet, now), base, oldest, taken),
{
    let segs = input::parse_packet(packet);
    lemma_digest_owes(m, segs, None, now, base, script, oldest, taken);
    lemma_fed_receive_side(m, packet, now);
    let e = input::digest(m, segs, None, now).engine;
    let after = m.fed(packet, now);
    if packet.len() >= 24 {
        assert(after.ack_list == e.ack_list);
        assert forall|i: int| 0 <= i < after.ack_list.len() implies confirmed(
            after,
            (#[trigger] after.ack_list[i]).0,
            base,
            oldest,
            taken,
        ) by {
            assert(confirmed(e, e.ack_list[i].0, base, oldest, taken));
            lemma_confirmed_lasts(e, after, e.ack_list[i].0, base, oldest, taken, taken);
        }
    }
}

/// Every segment that a receiver sends is honest, and afterwards it owes nothing.
pub proof fn law_answers_are_honest(m: EngineModel, now: u32, base: u32, oldest: int, taken: int)
    requires
        m.wf(),
        m.stands(base, taken),
        0 <= oldest <= m.progress(taken),
        owes_honestly(m, base, oldest, taken),
        in_conversation(m),
    ensures
        all_honest(m, wire_laws::as_read(m.outgoing(now)), base, oldest, taken),
        all_honest(m.flushed(now), wire_laws::as_read(m.outgoing(now)), base, oldest, taken),
        owes_honestly(m.flushed(now), base, oldest, taken),
{
    wire_laws::law_outgoing_tells_window(m, now);
    let all = m.outgoing(now);
    let read = wire_laws::as_read(all);
    let after = m.flushed(now);
    assert(after.rcv_queue == m.rcv_queue && after.rcv_buf == m.rcv_buf);
    assert forall|i: int| 0 <= i < read.len() implies honest(
        m,
        #[trigger] read[i],
        base,
        oldest,
        taken,
    ) && honest(after, read[i], base, oldest, taken) by {
        let seg = read[i];
        assert(seg.header == all[i].header);
        assert(all[i].header.una == m.rcv_nxt);
        assert(tells(m, seg, base, oldest, taken, m.progress(taken)));
        assert(tells(after, seg, base, oldest, taken, m.progress(taken)));
        if seg.header.cmd == constants::IKCP_CMD_ACK {
            lemma_acknowledges_owed(m, now, i);
            let c = choose|c: int| 0 <= c < m.ack_list.len() && (#[trigger] m.ack_list[c]).0
                == seg.header.sn;
            assert(confirmed(m, m.ack_list[c].0, base, oldest, taken));
            lemma_confirmed_lasts(m, after, seg.header.sn, base, oldest, taken, taken);
        }
    }
    assert(after.ack_list.len() == 0);
}

/// An acknowledgement that is sent is one that is owed.
proof fn lemma_acknowledges_owed(m: EngineModel, now: u32, i: int)
    requires
        m.wf(),
        in_conversation(m),
        0 <= i < m.outgoing(now).len(),
        m.outgoing(now)[i].header.cmd == constants::IKCP_CMD_ACK,
    ensures
        exists|c: int|
            0 <= c < m.ack_list.len() && (#[trigger] m.ack_list[c]).0 == m.outgoing(
                now,
            )[i].header.sn,
{
    let p = m.prepared(now);
    let pass = m.pass(now);
    let acks = m.ack_segments();
    let probes = m.probe_segments(now);
    let control = m.control_segments(now);
    flushing::lemma_prepared_wf(m, now);
    flushing::lemma_reach(pass, p.snd_buf);
    let part = p.snd_buf.take(pass.reach(p.snd_buf) as int);
    if i < acks.len() {
        assert(m.outgoing(now)[i] == acks[i]);
        assert(m.ack_list[i].0 == acks[i].header.sn);
    } else if i < control.len() {
        assert(m.outgoing(now)[i] == probes[i - acks.len()]);
    } else {
        assert forall|j: int| 0 <= j < part.len() implies (#[trigger] part[j]).len_matches()
            && part[j].data.len() <= m.mss() by {
            assert(p.snd_buf[j].len_matches());
        }
        wire_laws::lemma_transmitted(pass, part, m.mss());
        let t = pass.transmitted(part);
        assert(m.outgoing(now)[i] == t[i - control.len()]);
        let j = choose|j: int|
            0 <= j < part.len() && pass.tried(part[j]) == t[i - control.len()] && !(pass.decide(
                part[j],
            ) is Quiet);
        assert(part[j] == p.snd_buf[j]);
        if j < m.snd_buf.len() {
            assert(p.snd_buf[j] == m.snd_buf[j]);
        }
    }
}

/// What a receiver has said stays true of it, whatever packet of the sender comes in and
/// whatever the application takes.
pub proof fn law_honesty_lasts(
    m: EngineModel,
    seg: SegmentModel,
    packet: Seq<u8>,
    now: u32,
    base: u32,
    script: Seq<(u8, Seq<u8>)>,
    oldest: int,
    taken: int,
)
    requires
        m.wf(),
        m.follows(base, script, taken),
        delivery::all_genuine(input::parse_packet(packet), base, script),
        honest(m, seg, base, oldest, taken),
    ensures
        honest(m.fed(packet, now), seg, base, oldest, taken),
        honest(
            m.received(),
            seg,
            base,
            oldest,
            taken + receiving::message_len(m.rcv_queue),
        ),
{
    let a = m.fed(packet, now);
    let c = m.received();
    let n = receiving::message_len(m.rcv_queue) as int;
    let u = choose|u: int| tells(m, seg, base, oldest, taken, u);
    assert forall|k: int|
        0 <= k < m.progress(taken) + sequence::half_circle() && (#[trigger] m.has(
            base,
            taken,
            k,
        )) implies a.has(base, taken, k) && c.has(base, taken + n, k) by {
        law_receiving_loses_nothing(m, packet, now, base, script, taken, k);
        law_taking_loses_nothing(m, base, taken, k);
    }
    if m.progress(taken) > 0 {
        assert(m.has(base, taken, 0));
        law_receiving_loses_nothing(m, packet, now, base, script, taken, 0);
        law_taking_loses_nothing(m, base, taken, 0);
    } else {
        receiving::lemma_message_len(m.rcv_queue);
    }
    assert(tells(a, seg, base, oldest, taken, u));
    assert(tells(c, seg, base, oldest, taken + n, u));
    if seg.header.cmd == constants::IKCP_CMD_ACK {
        lemma_confirmed_lasts(m, a, seg.header.sn, base, oldest, taken, taken);
        lemma_confirmed_lasts(m, c, seg.header.sn, base, oldest, taken, taken + n);
    }
}

/// Taking in a segment leaves data of the conversation in flight.
proof fn lemma_absorbed_in_conversation(m: EngineModel, seg: SegmentModel, now: u32)
    requires
        in_conversation(m),
    ensures
        in_conversation(m.absorbed(seg, now)),
{
    let after = m.absorbed(seg, now);
    let t = m.told(seg.header);
    let k = input::lead(m.snd_buf, seg.header.una) as int;
    input::lemma_lead(m.snd_buf, seg.header.una);
    input::lemma_without_from(t.snd_buf, seg.header.sn);
    assert(after.snd_buf == t.snd_buf || after.snd_buf == input::without(
        t.snd_buf,
        seg.header.sn,
    ));
    assert forall|i: int| 0 <= i < after.snd_buf.len() implies (
    #[trigger] after.snd_buf[i]).header.cmd == constants::IKCP_CMD_PUSH
        && after.snd_buf[i].header.conv == m.conv by {
        if after.snd_buf == t.snd_buf {
            assert(t.snd_buf[i] == m.snd_buf[i + k]);
        } else {
            let w = input::without(t.snd_buf, seg.header.sn);
            let j = choose|j: int| 0 <= j < t.snd_buf.len() && t.snd_buf[j] == w[i];
            assert(t.snd_buf[j] == m.snd_buf[j + k]);
        }
    }
}

/// Taking in segments leaves data of the conversation in flight.
proof fn lemma_digest_in_conversation(
    m: EngineModel,
    segs: Seq<SegmentModel>,
    newest: Option<u32>,
    now: u32,
)
    requires
        in_conversation(m),
    ensures
        in_conversation(input::digest(m, segs, newest, now).engine),
    decreases segs.len(),
{
    if segs.len() > 0 && segs[0].header.conv == m.conv {
        lemma_absorbed_in_conversation(m, segs[0], now);
        lemma_digest_in_conversation(
            m.absorbed(segs[0], now),
            segs.skip(1),
            input::newest_ack(newest, segs[0].header),
            now,
        );
    }
}

/// A flush prepares and leaves data of the conversation in flight.
pub proof fn lemma_flushed_in_conversation(m: EngineModel, now: u32)
    requires
        in_conversation(m),
    ensures
        in_conversation(m.prepared(now)),
        in_conversation(m.flushed(now)),
{
    let p = m.prepared(now);
    let pass = m.pass(now);
    assert forall|i: int| 0 <= i < p.snd_buf.len() implies (
    #[trigger] p.snd_buf[i]).header.cmd == constants::IKCP_CMD_PUSH && p.snd_buf[i].header.conv
        == m.conv by {
        if i < m.snd_buf.len() {
            assert(p.snd_buf[i] == m.snd_buf[i]);
        }
    }
    let after = m.flushed(now);
    assert(after.snd_buf == pass.swept(p.snd_buf));
    assert forall|i: int| 0 <= i < after.snd_buf.len() implies (
    #[trigger] after.snd_buf[i]).header.cmd == constants::IKCP_CMD_PUSH
        && after.snd_buf[i].header.conv == m.conv by {
        assert(after.snd_buf[i] == pass.tried(p.snd_buf[i]));
        assert(p.snd_buf[i].header.cmd == constants::IKCP_CMD_PUSH);
    }
}

/// Everything in flight is data of the conversation, whatever happens to the engine.
pub proof fn law_flight_is_data(
    conv: u32,
    config: KcpCoreConfig,
    m: EngineModel,
    data: Seq<u8>,
    packet: Seq<u8>,
    now: u32,
)
    requires
        in_conversation(m),
    ensures
        in_conversation(EngineModel::fresh(conv, config, now)),
        in_conversation(m.queued(data)),
        in_conversation(m.received()),
        in_conversation(m.nudged(now)),
        in_conversation(m.flushed(now)),
        in_conversation(m.updated(now)),
        in_conversation(m.fed(packet, now)),
{
    lemma_flushed_in_conversation(m, now);
    lemma_flushed_in_conversation(EngineModel { last_update: now, ..m }, now);
    let a = m.queued(data);
    assert(a.snd_buf == m.snd_buf && a.conv == m.conv);
    let b = m.received();
    assert(b.snd_buf == m.snd_buf && b.conv == m.conv);
    let c = m.nudged(now);
    assert(c.snd_buf == m.snd_buf && c.conv == m.conv);
    lemma_digest_in_conversation(m, input::parse_packet(packet), None, now);
    let e = input::digest(m, input::parse_packet(packet), None, now).engine;
    let after = m.fed(packet, now);
    if packet.len() >= 24 {
        assert(after.conv == e.conv);
        assert forall|i: int| 0 <= i < after.snd_buf.len() implies (
        #[trigger] after.snd_buf[i]).header.cmd == constants::IKCP_CMD_PUSH
            && after.snd_buf[i].header.conv == after.conv by {
            assert(after.snd_buf[i].header == e.snd_buf[i].header);
        }
    }
}

/// Every segment that a flush sends is of the conversation.
pub proof fn lemma_outgoing_conv(m: EngineModel, now: u32, i: int)
    requires
        m.wf(),
        in_conversation(m),
        0 <= i < m.outgoing(now).len(),
    ensures
        m.outgoing(now)[i].header.conv == m.conv,
{
    let p = m.prepared(now);
    let pass = m.pass(now);
    let control = m.control_segments(now);
    flushing::lemma_prepared_wf(m, now);
    lemma_flushed_in_conversation(m, now);
    flushing::lemma_reach(pass, p.snd_buf);
    let part = p.snd_buf.take(pass.reach(p.snd_buf) as int);
    if i < control.len() {
        assert(m.outgoing(now)[i] == control[i]);
    } else {
        assert forall|j: int| 0 <= j < part.len() implies (#[trigger] part[j]).len_matches()
            && part[j].data.len() <= m.mss() by {
            assert(p.snd_buf[j].len_matches());
        }
        wire_laws::lemma_transmitted(pass, part, m.mss());
        let t = pass.transmitted(part);
        assert(m.outgoing(now)[i] == t[i - control.len()]);
        let j = choose|j: int|
            0 <= j < part.len() && pass.tried(part[j]) == t[i - control.len()] && !(pass.decide(
                part[j],
            ) is Quiet);
        assert(part[j] == p.snd_buf[j]);
        assert(p.snd_buf[j].header.conv == p.conv);
    }
}

/// When a sender has nothing in flight, the receiver has every segment.
pub proof fn law_nothing_unsent_is_missing(
    s: EngineModel,
    b: EngineModel,
    base: u32,
    len: int,
    taken: int,
)
    requires
        s.snd_buf.len() == 0,
        supplied(s, b, base, len, taken),
    ensures
        forall|k: int| 0 <= k < len ==> #[trigger] b.has(base, taken, k),
{
    assert forall|k: int| 0 <= k < len implies #[trigger] b.has(base, taken, k) by {
        assert(!s.keeps(base, k));
    }
}

} // verus!
