//! From application to application: the messages that one side sends are the messages that the
//! other side gets, whatever becomes of the datagrams on the way, as long as each arrives.
use super::EngineModel;
use crate::config::KcpCoreConfig;
use crate::engine::delivery;
use crate::engine::flushing;
use crate::engine::input;
use crate::engine::lifecycle;
use crate::engine::progress;
use crate::engine::receiving;
use crate::engine::sending;
use crate::engine::supply;
use crate::engine::transfer;
use crate::engine::wire_laws;
use crate::protocol::constants;
use crate::protocol::SegmentModel;
use crate::sequence;
use vstd::prelude::*;

verus! {

/// What an engine is made to do.
pub enum Act {
    /// Send a message
    Send(Seq<u8>),
    /// Flush
    Flush(u32),
    /// Flush if it is time
    Update(u32),
    /// Take in a packet
    Packet(Seq<u8>, u32),
    /// Hand out a message
    Take,
    /// Ask the peer for its window
    Probe(u32),
    /// Hand over the datagrams that are ready
    Drain,
}

impl EngineModel {
    /// The engine has done it.
    pub open spec fn acted(self, act: Act) -> Self {
        match act {
            Act::Send(data) => self.queued(data),
            Act::Flush(now) => self.flushed(now),
            Act::Update(now) => self.updated(now),
            Act::Packet(packet, now) => self.fed(packet, now),
            Act::Take => if self.has_message() {
                self.received()
            } else {
                self
            },
            Act::Probe(now) => self.nudged(now),
            Act::Drain => EngineModel { output: Seq::empty(), ..self },
        }
    }

    /// The act succeeds: a message has content and is not too long, and the link is not given
    /// up.
    pub open spec fn can(self, act: Act) -> bool {
        match act {
            Act::Send(data) => 0 < data.len() <= receiving::message_limit() && self.accepts(
                data.len() as int,
            ),
            Act::Flush(now) => !self.gives_up(now),
            Act::Update(now) => !self.update_due(now) || !self.gives_up(now),
            _ => true,
        }
    }

    /// The datagrams that the act makes ready.
    pub open spec fn put_out(self, act: Act) -> Seq<Seq<u8>> {
        if act is Drain {
            Seq::empty()
        } else {
            self.acted(act).output.skip(self.output.len() as int)
        }
    }

    /// The engine has done it all, one after the other.
    pub open spec fn acted_all(self, acts: Seq<Act>) -> Self
        decreases acts.len(),
    {
        if acts.len() == 0 {
            self
        } else {
            self.acted_all(acts.drop_last()).acted(acts.last())
        }
    }

    /// Each act succeeds when its turn comes.
    pub open spec fn can_all(self, acts: Seq<Act>) -> bool
        decreases acts.len(),
    {
        acts.len() > 0 ==> self.can_all(acts.drop_last()) && self.acted_all(
            acts.drop_last(),
        ).can(acts.last())
    }

    /// All datagrams that the acts make ready.
    pub open spec fn all_put_out(self, acts: Seq<Act>) -> Seq<Seq<u8>>
        decreases acts.len(),
    {
        if acts.len() == 0 {
            Seq::empty()
        } else {
            self.all_put_out(acts.drop_last()) + self.acted_all(acts.drop_last()).put_out(
                acts.last(),
            )
        }
    }

    /// The segments that the acts number, from the first on.
    pub open spec fn script_of(self, acts: Seq<Act>) -> Seq<(u8, Seq<u8>)>
        decreases acts.len(),
    {
        if acts.len() == 0 {
            Seq::empty()
        } else {
            let m = self.acted_all(acts.drop_last());
            let script = self.script_of(acts.drop_last());
            match acts.last() {
                Act::Flush(now) => m.script_after(script),
                Act::Update(now) => if m.update_due(now) {
                    m.script_after(script)
                } else {
                    script
                },
                _ => script,
            }
        }
    }

    /// The application has asked for a message so many times.
    pub open spec fn taken_times(self, k: nat) -> Self
        decreases k,
    {
        if k == 0 {
            self
        } else {
            self.taken_times((k - 1) as nat).acted(Act::Take)
        }
    }
}

/// The messages that the acts send.
pub open spec fn sent(acts: Seq<Act>) -> Seq<Seq<u8>>
    decreases acts.len(),
{
    if acts.len() == 0 {
        Seq::empty()
    } else {
        match acts.last() {
            Act::Send(data) => sent(acts.drop_last()).push(data),
            _ => sent(acts.drop_last()),
        }
    }
}

/// The fragments of one message.
pub open spec fn pieces_of(message: Seq<u8>, mss: int) -> Seq<(u8, Seq<u8>)> {
    delivery::payloads(sending::fragments(0, sending::chunks(message, mss), false))
}

/// The fragments of the messages, one after the other.
pub open spec fn all_pieces(messages: Seq<Seq<u8>>, mss: int) -> Seq<(u8, Seq<u8>)>
    decreases messages.len(),
{
    if messages.len() == 0 {
        Seq::empty()
    } else {
        all_pieces(messages.drop_last(), mss) + pieces_of(messages.last(), mss)
    }
}

/// The data of the segments of a script, one after the other.
pub open spec fn carried(script: Seq<(u8, Seq<u8>)>) -> Seq<u8>
    decreases script.len(),
{
    if script.len() == 0 {
        Seq::empty()
    } else {
        carried(script.drop_last()) + script.last().1
    }
}

/// A message that a receiver hands out.
pub open spec fn deliverable(message: Seq<u8>, mss: int) -> bool {
    &&& 0 < message.len() <= receiving::message_limit()
    &&& sending::chunk_count(message.len() as int, mss) <= constants::IKCP_WND_RCV
}

/// The segment is number `k` of the script.
spec fn placed(seg: SegmentModel, script: Seq<(u8, Seq<u8>)>, k: int) -> bool {
    &&& 0 <= k < script.len()
    &&& seg.header.sn == sequence::advanced(0, k)
    &&& delivery::payload(seg) == script[k]
}

/// The segment is of the script.
spec fn has_place(seg: SegmentModel, script: Seq<(u8, Seq<u8>)>) -> bool {
    exists|k: int| placed(seg, script, k)
}

/// Number `k` of the script is among the segments.
spec fn told(segs: Seq<SegmentModel>, script: Seq<(u8, Seq<u8>)>, k: int) -> bool {
    exists|i: int|
        0 <= i < segs.len() && (#[trigger] segs[i]).header.cmd == constants::IKCP_CMD_PUSH
            && placed(segs[i], script, k)
}

/// A sender that has numbered the script and has told all of it in these segments, which hold
/// nothing else.
spec fn has_told(m: EngineModel, segs: Seq<SegmentModel>, script: Seq<(u8, Seq<u8>)>) -> bool {
    &&& m.wf()
    &&& supply::in_conversation(m)
    &&& m.records(0, script)
    &&& forall|j: int| 0 <= j < segs.len() ==> (#[trigger] segs[j]).header.conv == m.conv
    &&& forall|j: int|
        0 <= j < segs.len() && (#[trigger] segs[j]).header.cmd == constants::IKCP_CMD_PUSH
            ==> has_place(segs[j], script)
    &&& forall|k: int| 0 <= k < script.len() ==> #[trigger] told(segs, script, k)
}

/// What a sender has numbered, with what waits, is what it was given.
spec fn accounts(m: EngineModel, script: Seq<(u8, Seq<u8>)>, messages: Seq<Seq<u8>>) -> bool {
    &&& carried(script) + receiving::joined(m.snd_queue) == transfer::concat(messages)
    &&& !m.config.stream_mode ==> script + delivery::payloads(m.snd_queue) == all_pieces(
        messages,
        m.mss(),
    )
}

/// What a script carries, in two parts.
proof fn lemma_carried_append(a: Seq<(u8, Seq<u8>)>, b: Seq<(u8, Seq<u8>)>)
    ensures
        carried(a + b) == carried(a) + carried(b),
    decreases b.len(),
{
    if b.len() == 0 {
        assert(a + b =~= a);
        assert(carried(a) + carried(b) =~= carried(a));
    } else {
        lemma_carried_append(a, b.drop_last());
        assert((a + b).drop_last() =~= a + b.drop_last());
        assert((a + b).last() == b.last());
        assert(carried(a + b) =~= carried(a) + carried(b));
    }
}

/// What payloads carry is what their segments hold.
proof fn lemma_carried_payloads(segs: Seq<SegmentModel>)
    ensures
        carried(delivery::payloads(segs)) == receiving::joined(segs),
    decreases segs.len(),
{
    if segs.len() > 0 {
        lemma_carried_payloads(segs.drop_last());
        assert(delivery::payloads(segs).drop_last() =~= delivery::payloads(segs.drop_last()));
        assert(delivery::payloads(segs).last() == delivery::payload(segs.last()));
    }
}

/// More segments tell more, and what has been told of a script has been told of a longer one.
proof fn lemma_told_grows(
    segs: Seq<SegmentModel>,
    more: Seq<SegmentModel>,
    script: Seq<(u8, Seq<u8>)>,
    longer: Seq<(u8, Seq<u8>)>,
    k: int,
)
    requires
        script.is_prefix_of(longer),
        told(segs, script, k),
    ensures
        told(segs + more, longer, k),
{
    let i = choose|i: int|
        0 <= i < segs.len() && (#[trigger] segs[i]).header.cmd == constants::IKCP_CMD_PUSH
            && placed(segs[i], script, k);
    assert((segs + more)[i] == segs[i]);
    assert(placed(segs[i], longer, k));
}

/// A flush sends every segment that it numbers.
proof fn lemma_numbered_is_told(m: EngineModel, now: u32, script: Seq<(u8, Seq<u8>)>, k: int)
    requires
        m.wf(),
        m.records(0, script),
        !m.gives_up(now),
        script.len() <= k < m.script_after(script).len(),
    ensures
        told(wire_laws::as_read(m.outgoing(now)), m.script_after(script), k),
{
    let p = m.prepared(now);
    let n = m.movable();
    let len = script.len() as int;
    let longer = m.script_after(script);
    let c = k - len;
    let j = m.snd_buf.len() + c;
    receiving::lemma_advanced_twice(0, len, c);
    let seg = p.snd_buf[j];
    assert(seg.xmit == 0);
    assert(seg.header.sn == sequence::advanced(m.snd_nxt, c));
    assert(delivery::payload(seg) == delivery::payload(m.snd_queue[c]));
    assert(longer[k] == delivery::payloads(m.snd_queue.take(n))[c]);
    assert(seg.header.cmd == constants::IKCP_CMD_PUSH);
    let i = progress::lemma_due_is_sent(m, now, j);
    let read = wire_laws::as_read(m.outgoing(now));
    assert(read[i].header.cmd == constants::IKCP_CMD_PUSH);
    assert(placed(read[i], longer, k));
}

/// A flush tells what it numbers.
proof fn lemma_flush_tells(
    m: EngineModel,
    now: u32,
    segs: Seq<SegmentModel>,
    script: Seq<(u8, Seq<u8>)>,
)
    requires
        has_told(m, segs, script),
        !m.gives_up(now),
    ensures
        has_told(
            m.flushed(now),
            segs + wire_laws::as_read(m.outgoing(now)),
            m.script_after(script),
        ),
{
    let longer = m.script_after(script);
    let read = wire_laws::as_read(m.outgoing(now));
    let all = segs + read;
    let after = m.flushed(now);
    flushing::lemma_flushed_wf(m, now);
    supply::lemma_flushed_in_conversation(m, now);
    delivery::law_flush_sends_script(m, now, 0, script);
    assert(script.is_prefix_of(longer));
    assert forall|j: int| 0 <= j < all.len() implies (#[trigger] all[j]).header.conv
        == after.conv by {
        if j < segs.len() {
            assert(all[j] == segs[j]);
        } else {
            assert(all[j] == read[j - segs.len()]);
            supply::lemma_outgoing_conv(m, now, j - segs.len());
        }
    }
    assert forall|j: int|
        0 <= j < all.len() && (#[trigger] all[j]).header.cmd
            == constants::IKCP_CMD_PUSH implies has_place(all[j], longer) by {
        if j < segs.len() {
            assert(all[j] == segs[j]);
            let k = choose|k: int| placed(segs[j], script, k);
            assert(placed(all[j], longer, k));
        } else {
            assert(all[j] == read[j - segs.len()]);
            let seg = read[j - segs.len()];
            assert(delivery::genuine(seg, 0, longer));
            let k = choose|k: int| delivery::scripted(seg, 0, longer, k);
            assert(placed(all[j], longer, k));
        }
    }
    assert forall|k: int| 0 <= k < longer.len() implies #[trigger] told(all, longer, k) by {
        if k < script.len() {
            assert(told(segs, script, k));
            lemma_told_grows(segs, read, script, longer, k);
        } else {
            lemma_numbered_is_told(m, now, script, k);
            let i = choose|i: int|
                0 <= i < read.len() && (#[trigger] read[i]).header.cmd
                    == constants::IKCP_CMD_PUSH && placed(read[i], longer, k);
            assert(all[segs.len() + i] == read[i]);
        }
    }
}

/// Moving the front of a queue to the end of a script leaves the whole as it was.
proof fn lemma_front_moves(script: Seq<(u8, Seq<u8>)>, queue: Seq<SegmentModel>, n: int)
    requires
        0 <= n <= queue.len(),
    ensures
        ({
            let longer = script + delivery::payloads(queue.take(n));
            let rest = queue.skip(n);
            &&& carried(longer) + receiving::joined(rest) == carried(script) + receiving::joined(
                queue,
            )
            &&& longer + delivery::payloads(rest) == script + delivery::payloads(queue)
        }),
{
    let front = queue.take(n);
    let rest = queue.skip(n);
    let longer = script + delivery::payloads(front);
    assert(front + rest =~= queue);
    transfer::lemma_joined_append(front, rest);
    lemma_carried_append(script, delivery::payloads(front));
    lemma_carried_payloads(front);
    assert(carried(longer) + receiving::joined(rest) =~= carried(script) + receiving::joined(queue));
    assert(longer + delivery::payloads(rest) =~= script + delivery::payloads(queue));
}

/// What a flush leaves waiting.
proof fn lemma_flush_queue(m: EngineModel, now: u32)
    ensures
        m.flushed(now).snd_queue == m.snd_queue.skip(m.movable()),
        m.flushed(now).config == m.config,
        m.flushed(now).conv == m.conv,
        0 <= m.movable() <= m.snd_queue.len(),
{
    let p = m.prepared(now);
    assert(p.snd_queue == m.snd_queue.skip(m.movable()));
}

/// A flush moves what it numbers from what waits to the script.
proof fn lemma_flush_accounts(
    m: EngineModel,
    now: u32,
    script: Seq<(u8, Seq<u8>)>,
    messages: Seq<Seq<u8>>,
)
    requires
        accounts(m, script, messages),
    ensures
        accounts(m.flushed(now), m.script_after(script), messages),
{
    lemma_flush_queue(m, now);
    lemma_front_moves(script, m.snd_queue, m.movable());
}

/// Queueing a message leaves an engine well-formed.
proof fn lemma_queued_wf(m: EngineModel, data: Seq<u8>)
    requires
        m.wf(),
    ensures
        m.queued(data).wf(),
{
    let n = if m.config.stream_mode {
        sending::spare(m.snd_queue, data.len() as int, m.mss())
    } else {
        0
    };
    let top = sending::topped_up(m.snd_queue, data, n);
    assert forall|i: int| 0 <= i < top.len() implies (#[trigger] top[i]).len_matches()
        && top[i].data.len() <= m.mss() by {
        assert(m.snd_queue[i].len_matches() && m.snd_queue[i].data.len() <= m.mss());
    }
    sending::lemma_chunks(data.skip(n), m.mss());
    sending::lemma_fragments_sendable(
        top,
        m.conv,
        sending::chunks(data.skip(n), m.mss()),
        m.config.stream_mode,
        m.mss(),
    );
}

/// Queueing a message adds it to what waits.
proof fn lemma_queued_accounts(
    m: EngineModel,
    data: Seq<u8>,
    script: Seq<(u8, Seq<u8>)>,
    messages: Seq<Seq<u8>>,
)
    requires
        m.wf(),
        accounts(m, script, messages),
    ensures
        accounts(m.queued(data), script, messages.push(data)),
{
    let after = m.queued(data);
    let all = messages.push(data);
    assert(all.drop_last() =~= messages);
    transfer::law_queueing_keeps_bytes(m, data);
    assert(carried(script) + (receiving::joined(m.snd_queue) + data) =~= carried(script)
        + receiving::joined(m.snd_queue) + data);
    if !m.config.stream_mode {
        assert(data.skip(0) =~= data);
        let more = sending::fragments(m.conv, sending::chunks(data, m.mss()), false);
        assert(after.snd_queue == m.snd_queue + more);
        assert(delivery::payloads(more) =~= pieces_of(data, m.mss()));
        assert(script + delivery::payloads(after.snd_queue) =~= script + delivery::payloads(
            m.snd_queue,
        ) + pieces_of(data, m.mss()));
    }
}

/// Handing out a message leaves an engine well-formed.
pub proof fn lemma_received_wf(m: EngineModel)
    requires
        m.wf(),
    ensures
        m.received().wf(),
{
    receiving::lemma_message_len(m.rcv_queue);
    let mid = EngineModel {
        rcv_queue: m.rcv_queue.skip(receiving::message_len(m.rcv_queue) as int),
        stats: crate::protocol::KcpStats {
            bytes_received: ((m.stats.bytes_received + m.first_message().len())
                % 0x1_0000_0000_0000_0000) as u64,
            ..m.stats
        },
        ..m
    };
    receiving::lemma_pumped_wf(mid);
}

/// A packet leaves what waits and what is ready alone.
proof fn lemma_digest_frame(
    m: EngineModel,
    segs: Seq<SegmentModel>,
    newest: Option<u32>,
    now: u32,
)
    ensures
        ({
            let e = input::digest(m, segs, newest, now).engine;
            &&& e.snd_queue == m.snd_queue
            &&& e.output == m.output
            &&& e.config == m.config
            &&& e.conv == m.conv
        }),
    decreases segs.len(),
{
    if segs.len() > 0 && segs[0].header.conv == m.conv {
        lemma_digest_frame(
            m.absorbed(segs[0], now),
            segs.skip(1),
            input::newest_ack(newest, segs[0].header),
            now,
        );
    }
}

/// A probe holds one segment, which is no data.
proof fn lemma_probe_put_out(m: EngineModel, now: u32)
    ensures
        wire_laws::unpacked(m.put_out(Act::Probe(now))) == seq![
            m.control(constants::IKCP_CMD_WASK, 0, now),
        ],
{
    let seg = m.control(constants::IKCP_CMD_WASK, 0, now);
    let out = m.put_out(Act::Probe(now));
    assert(out =~= seq![seg.wire()]);
    assert(out.drop_last() =~= Seq::empty());
    wire_laws::lemma_parse_front(seg, Seq::empty());
    assert(seg.wire() + Seq::<u8>::empty() =~= seg.wire());
    assert(input::parse_packet(Seq::<u8>::empty()) =~= Seq::empty());
    assert(input::parse_packet(seg.wire()) =~= seq![seg]);
    assert(wire_laws::unpacked(out.drop_last()) =~= Seq::empty());
    assert(wire_laws::unpacked(out) =~= seq![seg]);
}

/// What an act leaves of the send side, unless it flushes.
proof fn lemma_quiet_act(m: EngineModel, act: Act)
    requires
        m.wf(),
        !(act is Flush),
        act matches Act::Update(now) ==> !m.update_due(now),
    ensures
        m.acted(act).wf(),
        m.acted(act).conv == m.conv,
        m.acted(act).config == m.config,
        !(act is Send) ==> m.acted(act).snd_queue == m.snd_queue,
        !(act is Probe) ==> m.put_out(act) == Seq::<Seq<u8>>::empty(),
{
    let none = m.output.skip(m.output.len() as int);
    assert(none =~= Seq::empty());
    match act {
        Act::Send(data) => {
            lemma_queued_wf(m, data);
        },
        Act::Packet(packet, now) => {
            input::lemma_fed_wf(m, packet, now);
            lemma_digest_frame(m, input::parse_packet(packet), None, now);
        },
        Act::Take => {
            lemma_received_wf(m);
        },
        _ => {},
    }
}

/// One more act of a sender: it has told all that it has numbered, and accounts for all that it
/// was given.
proof fn lemma_act(
    m: EngineModel,
    act: Act,
    segs: Seq<SegmentModel>,
    script: Seq<(u8, Seq<u8>)>,
    messages: Seq<Seq<u8>>,
)
    requires
        m.can(act),
        has_told(m, segs, script),
        accounts(m, script, messages),
    ensures
        ({
            let after = m.acted(act);
            let longer = match act {
                Act::Flush(now) => m.script_after(script),
                Act::Update(now) => if m.update_due(now) {
                    m.script_after(script)
                } else {
                    script
                },
                _ => script,
            };
            let all = match act {
                Act::Send(data) => messages.push(data),
                _ => messages,
            };
            &&& has_told(after, segs + wire_laws::unpacked(m.put_out(act)), longer)
            &&& accounts(after, longer, all)
            &&& after.conv == m.conv
            &&& after.config == m.config
        }),
{
    match act {
        Act::Flush(now) => {
            lemma_flush_act(m, now, segs, script, messages);
        },
        Act::Update(now) if m.update_due(now) => {
            let m2 = EngineModel { last_update: now, ..m };
            assert(has_told(m2, segs, script));
            assert(accounts(m2, script, messages));
            assert(m2.prepared(now).snd_buf == m.prepared(now).snd_buf);
            assert(m2.pass(now) == m.pass(now));
            assert(!m2.gives_up(now));
            lemma_flush_act(m2, now, segs, script, messages);
            assert(m2.script_after(script) == m.script_after(script));
        },
        _ => {
            lemma_other_act(m, act, segs, script, messages);
        },
    }
}

/// A flush of a sender.
proof fn lemma_flush_act(
    m: EngineModel,
    now: u32,
    segs: Seq<SegmentModel>,
    script: Seq<(u8, Seq<u8>)>,
    messages: Seq<Seq<u8>>,
)
    requires
        !m.gives_up(now),
        has_told(m, segs, script),
        accounts(m, script, messages),
    ensures
        has_told(
            m.flushed(now),
            segs + wire_laws::unpacked(wire_laws::added(m, now)),
            m.script_after(script),
        ),
        accounts(m.flushed(now), m.script_after(script), messages),
        m.flushed(now).conv == m.conv,
        m.flushed(now).config == m.config,
{
    wire_laws::law_flush_output(m, now);
    lemma_flush_tells(m, now, segs, script);
    lemma_flush_accounts(m, now, script, messages);
    lemma_flush_queue(m, now);
}

/// An act of a sender that is no flush.
proof fn lemma_other_act(
    m: EngineModel,
    act: Act,
    segs: Seq<SegmentModel>,
    script: Seq<(u8, Seq<u8>)>,
    messages: Seq<Seq<u8>>,
)
    requires
        !(act is Flush),
        act matches Act::Update(now) ==> !m.update_due(now),
        has_told(m, segs, script),
        accounts(m, script, messages),
    ensures
        has_told(m.acted(act), segs + wire_laws::unpacked(m.put_out(act)), script),
        accounts(
            m.acted(act),
            script,
            match act {
                Act::Send(data) => messages.push(data),
                _ => messages,
            },
        ),
        m.acted(act).conv == m.conv,
        m.acted(act).config == m.config,
{
    let after = m.acted(act);
    let read = wire_laws::unpacked(m.put_out(act));
    lemma_quiet_act(m, act);
    if act is Probe {
        lemma_probe_put_out(m, act->Probe_0);
    } else {
        assert(read =~= Seq::empty());
    }
    assert(after.records(0, script) && supply::in_conversation(after)) by {
        match act {
            Act::Send(data) => {
                delivery::law_queueing_keeps_record(m, data, 0, 0, script);
                supply::law_flight_is_data(m.conv, m.config, m, data, Seq::empty(), 0);
            },
            Act::Packet(packet, now) => {
                delivery::law_packets_keep_record(m, packet, now, 0, script);
                supply::law_flight_is_data(m.conv, m.config, m, Seq::empty(), packet, now);
            },
            Act::Take => {
                delivery::law_queueing_keeps_record(m, Seq::empty(), 0, 0, script);
                supply::law_flight_is_data(m.conv, m.config, m, Seq::empty(), Seq::empty(), 0);
            },
            Act::Probe(now) => {
                delivery::law_queueing_keeps_record(m, Seq::empty(), now, 0, script);
                supply::law_flight_is_data(m.conv, m.config, m, Seq::empty(), Seq::empty(), now);
            },
            Act::Update(now) => {
                assert(after.snd_buf == m.snd_buf);
            },
            _ => {
                assert(after.snd_buf == m.snd_buf);
            },
        }
    }
    let all = segs + read;
    assert forall|j: int| 0 <= j < all.len() implies (#[trigger] all[j]).header.conv
        == after.conv && (all[j].header.cmd == constants::IKCP_CMD_PUSH ==> has_place(
        all[j],
        script,
    )) by {
        if j < segs.len() {
            assert(all[j] == segs[j]);
        } else {
            assert(all[j] == read[j - segs.len()]);
        }
    }
    assert forall|k: int| 0 <= k < script.len() implies #[trigger] told(all, script, k) by {
        assert(told(segs, script, k));
        lemma_told_grows(segs, read, script, script, k);
    }
    match act {
        Act::Send(data) => {
            lemma_queued_accounts(m, data, script, messages);
        },
        _ => {},
    }
}

/// A new sender after any acts: it has told all that it has numbered, and accounts for all that
/// it was given.
proof fn lemma_acts(conv: u32, config: KcpCoreConfig, now: u32, acts: Seq<Act>)
    requires
        config.mtu <= usize::MAX / 8,
        EngineModel::fresh(conv, config, now).can_all(acts),
    ensures
        ({
            let a = EngineModel::fresh(conv, config, now);
            let s = a.acted_all(acts);
            &&& has_told(s, wire_laws::unpacked(a.all_put_out(acts)), a.script_of(acts))
            &&& accounts(s, a.script_of(acts), sent(acts))
            &&& s.conv == conv
            &&& s.config == a.config
        }),
    decreases acts.len(),
{
    let a = EngineModel::fresh(conv, config, now);
    if acts.len() == 0 {
        lifecycle::lemma_fresh_wf(conv, config, now);
        delivery::law_fresh_is_at_start(conv, config, now);
        assert(wire_laws::unpacked(a.all_put_out(acts)) =~= Seq::empty());
        assert(delivery::payloads(a.snd_queue) =~= Seq::empty());
        assert(carried(Seq::empty()) + receiving::joined(a.snd_queue) =~= Seq::empty());
        assert(a.script_of(acts) + delivery::payloads(a.snd_queue) =~= Seq::empty());
    } else {
        let front = acts.drop_last();
        let m = a.acted_all(front);
        lemma_acts(conv, config, now, front);
        lemma_act(
            m,
            acts.last(),
            wire_laws::unpacked(a.all_put_out(front)),
            a.script_of(front),
            sent(front),
        );
        wire_laws::lemma_unpacked_append(a.all_put_out(front), m.put_out(acts.last()));
    }
}

/// A new receiver that gets the datagrams of a sender has the whole script in order.
proof fn lemma_script_arrives(
    s: EngineModel,
    b: EngineModel,
    out: Seq<Seq<u8>>,
    packets: Seq<Seq<u8>>,
    times: Seq<u32>,
    script: Seq<(u8, Seq<u8>)>,
)
    requires
        has_told(s, wire_laws::unpacked(out), script),
        b.wf(),
        b.conv == s.conv,
        b.follows(0, Seq::empty(), 0),
        b.caught_up(),
        script.len() <= b.wnd.rcv <= sequence::half_circle(),
        wire_laws::reorders(packets, out),
    ensures
        ({
            let after = transfer::fed_all(b, packets, times);
            &&& after.wf()
            &&& after.rcv_buf.len() == 0
            &&& delivery::payloads(after.rcv_queue) == script
        }),
{
    let segs = wire_laws::unpacked(packets);
    let all = wire_laws::unpacked(out);
    let after = transfer::fed_all(b, packets, times);
    assert(b.rcv_queue.len() == 0);
    delivery::law_script_grows(b, 0, Seq::empty(), script, 0);
    assert(Seq::<(u8, Seq<u8>)>::empty() + script =~= script);
    assert forall|j: int| 0 <= j < segs.len() implies (#[trigger] segs[j]).header.conv == b.conv
        && (segs[j].header.cmd == constants::IKCP_CMD_PUSH ==> delivery::genuine(
        segs[j],
        0,
        script,
    )) by {
        let i = wire_laws::lemma_drawn_segment(packets, out, j);
        assert(all[i] == segs[j]);
        if segs[j].header.cmd == constants::IKCP_CMD_PUSH {
            let k = choose|k: int| placed(all[i], script, k);
            assert(delivery::scripted(segs[j], 0, script, k));
        }
    }
    progress::lemma_fed_all_gains(b, packets, times, 0, script, 0);
    assert forall|k: int| 0 <= k < script.len() implies #[trigger] after.has(0, 0, k) by {
        assert(told(all, script, k));
        let i = choose|i: int|
            0 <= i < all.len() && (#[trigger] all[i]).header.cmd == constants::IKCP_CMD_PUSH
                && placed(all[i], script, k);
        let j = wire_laws::lemma_drawn_segment(out, packets, i);
        assert(delivery::scripted(segs[j], 0, script, k));
    }
    progress::lemma_all_in_order(after, 0, script, 0);
    assert(script.subrange(0, script.len() as int) =~= script);
    if after.rcv_buf.len() > 0 {
        assert(after.progress(0) + sequence::distance(
            after.rcv_nxt,
            after.rcv_buf[0].header.sn,
        ) < script.len());
    }
}

/// The fragments of messages, the first one apart.
proof fn lemma_pieces_front(messages: Seq<Seq<u8>>, mss: int)
    requires
        messages.len() > 0,
    ensures
        all_pieces(messages, mss) == pieces_of(messages[0], mss) + all_pieces(
            messages.skip(1),
            mss,
        ),
    decreases messages.len(),
{
    let front = messages.drop_last();
    if front.len() == 0 {
        assert(messages.skip(1) =~= Seq::empty());
        assert(all_pieces(front, mss) =~= Seq::empty());
        assert(all_pieces(messages, mss) =~= pieces_of(messages[0], mss) + all_pieces(
            messages.skip(1),
            mss,
        ));
    } else {
        lemma_pieces_front(front, mss);
        assert(messages.skip(1).drop_last() =~= front.skip(1));
        assert(messages.skip(1).last() == messages.last());
        assert(all_pieces(messages, mss) =~= pieces_of(messages[0], mss) + all_pieces(
            messages.skip(1),
            mss,
        ));
    }
}

/// Asking once and then so many times more.
proof fn lemma_taken_first(m: EngineModel, k: nat)
    requires
        k > 0,
    ensures
        m.taken_times(k) == m.acted(Act::Take).taken_times((k - 1) as nat),
    decreases k,
{
    if k > 1 {
        lemma_taken_first(m, (k - 1) as nat);
    } else {
        assert(m.taken_times(0) == m);
    }
}

/// A receiver whose queue holds the fragments of messages hands out these messages, in order and
/// once each, and then has none.
pub proof fn law_messages_come_out(m: EngineModel, messages: Seq<Seq<u8>>, mss: int)
    requires
        m.wf(),
        m.rcv_buf.len() == 0,
        mss > 0,
        delivery::payloads(m.rcv_queue) == all_pieces(messages, mss),
        forall|k: int| 0 <= k < messages.len() ==> deliverable(#[trigger] messages[k], mss),
    ensures
        forall|k: nat|
            k < messages.len() ==> (#[trigger] m.taken_times(k)).has_message() && m.taken_times(
                k,
            ).first_message() == messages[k as int],
        !m.taken_times(messages.len()).has_message(),
    decreases messages.len(),
{
    assert(m.taken_times(0) == m);
    assert(m.rcv_queue.len() == delivery::payloads(m.rcv_queue).len());
    if messages.len() > 0 {
        let first = messages[0];
        let rest = messages.skip(1);
        let f = sending::fragments(0, sending::chunks(first, mss), false);
        let n = f.len() as int;
        lemma_pieces_front(messages, mss);
        assert(deliverable(messages[0], mss));
        assert(delivery::payloads(m.rcv_queue.take(n)) =~= delivery::payloads(f)) by {
            assert forall|i: int| 0 <= i < n implies delivery::payloads(m.rcv_queue.take(n))[i]
                == delivery::payloads(f)[i] by {
                assert(delivery::payloads(m.rcv_queue)[i] == pieces_of(first, mss)[i]);
            }
        }
        transfer::law_fragments_reassemble(m, 0, first, mss);
        sending::lemma_chunks(first, mss);
        let next = m.received();
        lemma_received_wf(m);
        receiving::lemma_run_len(m.rcv_buf, m.rcv_nxt, m.wnd.rcv - (m.rcv_queue.len() - n));
        assert(next.rcv_buf.len() == 0);
        assert(next.rcv_queue =~= m.rcv_queue.skip(n));
        assert(delivery::payloads(next.rcv_queue) =~= all_pieces(rest, mss)) by {
            assert forall|i: int| 0 <= i < m.rcv_queue.len() - n implies delivery::payloads(
                next.rcv_queue,
            )[i] == all_pieces(rest, mss)[i] by {
                assert(delivery::payloads(m.rcv_queue)[n + i] == all_pieces(messages, mss)[n + i]);
            }
        }
        assert forall|k: int| 0 <= k < rest.len() implies deliverable(#[trigger] rest[k], mss) by {
            assert(rest[k] == messages[k + 1]);
        }
        law_messages_come_out(next, rest, mss);
        assert forall|k: nat| k < messages.len() implies (#[trigger] m.taken_times(
            k,
        )).has_message() && m.taken_times(k).first_message() == messages[k as int] by {
            if k > 0 {
                lemma_taken_first(m, k);
                assert(next.taken_times((k - 1) as nat).has_message());
                assert(rest[k - 1] == messages[k as int]);
            }
        }
        lemma_taken_first(m, messages.len());
    }
}

/// Every message that a new engine sends is one that a receiver hands out.
proof fn lemma_sent_deliverable(conv: u32, config: KcpCoreConfig, now: u32, acts: Seq<Act>)
    requires
        config.mtu <= usize::MAX / 8,
        EngineModel::fresh(conv, config, now).can_all(acts),
    ensures
        forall|k: int|
            0 <= k < sent(acts).len() ==> deliverable(
                #[trigger] sent(acts)[k],
                EngineModel::fresh(conv, config, now).mss(),
            ),
    decreases acts.len(),
{
    if acts.len() > 0 {
        let a = EngineModel::fresh(conv, config, now);
        let front = acts.drop_last();
        lemma_sent_deliverable(conv, config, now, front);
        lemma_acts(conv, config, now, front);
        assert forall|k: int| 0 <= k < sent(acts).len() implies deliverable(
            #[trigger] sent(acts)[k],
            a.mss(),
        ) by {
            if k < sent(front).len() {
                assert(sent(acts)[k] == sent(front)[k]);
            }
        }
    }
}

/// What is sent arrives, message by message. Let a new engine do whatever it is asked to, such
/// that no message is refused, the link is not given up and in the end nothing waits to be sent
/// for the first time. A new engine that gets every datagram at least once, in whatever order and
/// however often, hands out the messages that were sent, in order and once each, and then none,
/// provided that its window takes all their fragments.
pub proof fn law_messages_arrive(
    conv: u32,
    s_config: KcpCoreConfig,
    b_config: KcpCoreConfig,
    t0: u32,
    t1: u32,
    acts: Seq<Act>,
    packets: Seq<Seq<u8>>,
    times: Seq<u32>,
)
    requires
        s_config.mtu <= usize::MAX / 8,
        b_config.mtu <= usize::MAX / 8,
        !s_config.stream_mode,
        ({
            let a = EngineModel::fresh(conv, s_config, t0);
            &&& a.can_all(acts)
            &&& a.acted_all(acts).snd_queue.len() == 0
            &&& all_pieces(sent(acts), a.mss()).len() <= b_config.rcv_wnd
            &&& wire_laws::reorders(packets, a.all_put_out(acts))
        }),
        b_config.rcv_wnd <= sequence::half_circle(),
    ensures
        ({
            let b = transfer::fed_all(EngineModel::fresh(conv, b_config, t1), packets, times);
            let messages = sent(acts);
            &&& b.wf()
            &&& forall|k: nat|
                k < messages.len() ==> (#[trigger] b.taken_times(k)).has_message()
                    && b.taken_times(k).first_message() == messages[k as int]
            &&& !b.taken_times(messages.len()).has_message()
        }),
{
    let a = EngineModel::fresh(conv, s_config, t0);
    let s = a.acted_all(acts);
    let b0 = EngineModel::fresh(conv, b_config, t1);
    let script = a.script_of(acts);
    lemma_acts(conv, s_config, t0, acts);
    lemma_sent_deliverable(conv, s_config, t0, acts);
    lifecycle::lemma_fresh_wf(conv, b_config, t1);
    delivery::law_fresh_is_at_start(conv, b_config, t1);
    assert(script + delivery::payloads(s.snd_queue) =~= script);
    lemma_script_arrives(s, b0, a.all_put_out(acts), packets, times, script);
    law_messages_come_out(transfer::fed_all(b0, packets, times), sent(acts), a.mss());
}

/// Sending the messages, one after the other.
pub open spec fn sends(messages: Seq<Seq<u8>>) -> Seq<Act> {
    Seq::new(messages.len(), |i: int| Act::Send(messages[i]))
}

/// A new engine that has been given messages, and nothing else.
proof fn lemma_sends(conv: u32, config: KcpCoreConfig, now: u32, messages: Seq<Seq<u8>>)
    requires
        !config.stream_mode,
        forall|k: int|
            0 <= k < messages.len() ==> EngineModel::fresh(conv, config, now).can(
                Act::Send(#[trigger] messages[k]),
            ),
    ensures
        ({
            let a = EngineModel::fresh(conv, config, now);
            let s = a.acted_all(sends(messages));
            &&& a.can_all(sends(messages))
            &&& sent(sends(messages)) == messages
            &&& a.all_put_out(sends(messages)) == Seq::<Seq<u8>>::empty()
            &&& s == (EngineModel { snd_queue: s.snd_queue, stats: s.stats, ..a })
            &&& s.snd_queue.len() == all_pieces(messages, a.mss()).len()
        }),
    decreases messages.len(),
{
    let a = EngineModel::fresh(conv, config, now);
    let acts = sends(messages);
    if messages.len() == 0 {
        assert(sent(acts) =~= messages);
    } else {
        let front = messages.drop_last();
        let data = messages.last();
        assert forall|k: int| 0 <= k < front.len() implies a.can(
            Act::Send(#[trigger] front[k]),
        ) by {
            assert(front[k] == messages[k]);
        }
        lemma_sends(conv, config, now, front);
        let m = a.acted_all(sends(front));
        assert(acts.drop_last() =~= sends(front));
        assert(acts.last() == Act::Send(data));
        assert(a.can(Act::Send(messages[messages.len() - 1])));
        assert(data.skip(0) =~= data);
        assert(sent(acts) =~= messages);
        assert(m.put_out(Act::Send(data)) =~= Seq::empty());
        assert(a.all_put_out(acts) =~= Seq::empty());
    }
}

/// One flush sends everything that waits, if nothing is in flight and the window takes it.
proof fn lemma_first_flush_sends_all(s: EngineModel, now: u32)
    requires
        s.snd_buf.len() == 0,
        s.snd_una == s.snd_nxt,
        s.snd_queue.len() <= s.send_window(),
    ensures
        !s.gives_up(now),
        s.flushed(now).snd_queue.len() == 0,
{
    assert(s.inflight() == 0);
    assert(s.movable() == s.snd_queue.len());
    lemma_flush_queue(s, now);
    lemma_all_new(s, now);
}

/// When nothing is in flight, a flush sends everything for the first time, and gives nothing up.
proof fn lemma_all_new(s: EngineModel, now: u32)
    requires
        s.snd_buf.len() == 0,
    ensures
        !s.gives_up(now),
{
    let buf = s.prepared(now).snd_buf;
    let pass = s.pass(now);
    assert(pass.dead_link >= 1);
    assert forall|i: int| 0 <= i < buf.len() implies !pass.fatal(#[trigger] buf[i]) by {
        assert(buf[i].xmit == 0);
    }
}

/// What is sent arrives after one flush, if the windows take it: a new engine is given messages
/// whose fragments all fit the windows, and is flushed. A new engine that gets every datagram at
/// least once, in whatever order and however often, hands out the messages, in order and once
/// each, and then none.
pub proof fn law_flushed_messages_arrive(
    conv: u32,
    s_config: KcpCoreConfig,
    b_config: KcpCoreConfig,
    t0: u32,
    t1: u32,
    messages: Seq<Seq<u8>>,
    now: u32,
    packets: Seq<Seq<u8>>,
    times: Seq<u32>,
)
    requires
        s_config.mtu <= usize::MAX / 8,
        b_config.mtu <= usize::MAX / 8,
        !s_config.stream_mode,
        ({
            let a = EngineModel::fresh(conv, s_config, t0);
            let n = all_pieces(messages, a.mss()).len();
            &&& forall|k: int|
                0 <= k < messages.len() ==> a.can(Act::Send(#[trigger] messages[k]))
            &&& n <= s_config.snd_wnd
            &&& n <= constants::IKCP_WND_RCV
            &&& n <= b_config.rcv_wnd
            &&& wire_laws::reorders(packets, a.acted_all(sends(messages)).flushed(now).output)
        }),
        b_config.rcv_wnd <= sequence::half_circle(),
    ensures
        ({
            let b = transfer::fed_all(EngineModel::fresh(conv, b_config, t1), packets, times);
            &&& b.wf()
            &&& forall|k: nat|
                k < messages.len() ==> (#[trigger] b.taken_times(k)).has_message()
                    && b.taken_times(k).first_message() == messages[k as int]
            &&& !b.taken_times(messages.len()).has_message()
        }),
{
    let a = EngineModel::fresh(conv, s_config, t0);
    let s = a.acted_all(sends(messages));
    let acts = sends(messages).push(Act::Flush(now));
    lemma_sends(conv, s_config, t0, messages);
    lemma_first_flush_sends_all(s, now);
    assert(acts.drop_last() =~= sends(messages));
    assert(acts.last() == Act::Flush(now));
    assert(s.put_out(Act::Flush(now)) =~= s.flushed(now).output);
    assert(a.all_put_out(acts) =~= s.flushed(now).output);
    law_messages_arrive(conv, s_config, b_config, t0, t1, acts, packets, times);
}

/// What is sent arrives, byte by byte, with or without message boundaries: under the same
/// conditions the receiver holds exactly the bytes that were sent, in order.
pub proof fn law_bytes_arrive(
    conv: u32,
    s_config: KcpCoreConfig,
    b_config: KcpCoreConfig,
    t0: u32,
    t1: u32,
    acts: Seq<Act>,
    packets: Seq<Seq<u8>>,
    times: Seq<u32>,
)
    requires
        s_config.mtu <= usize::MAX / 8,
        b_config.mtu <= usize::MAX / 8,
        ({
            let a = EngineModel::fresh(conv, s_config, t0);
            &&& a.can_all(acts)
            &&& a.acted_all(acts).snd_queue.len() == 0
            &&& a.script_of(acts).len() <= b_config.rcv_wnd
            &&& wire_laws::reorders(packets, a.all_put_out(acts))
        }),
        b_config.rcv_wnd <= sequence::half_circle(),
    ensures
        ({
            let b = transfer::fed_all(EngineModel::fresh(conv, b_config, t1), packets, times);
            &&& b.wf()
            &&& b.rcv_buf.len() == 0
            &&& receiving::joined(b.rcv_queue) == transfer::concat(sent(acts))
        }),
{
    let a = EngineModel::fresh(conv, s_config, t0);
    let s = a.acted_all(acts);
    let b0 = EngineModel::fresh(conv, b_config, t1);
    let script = a.script_of(acts);
    let b = transfer::fed_all(b0, packets, times);
    lemma_acts(conv, s_config, t0, acts);
    lifecycle::lemma_fresh_wf(conv, b_config, t1);
    delivery::law_fresh_is_at_start(conv, b_config, t1);
    lemma_script_arrives(s, b0, a.all_put_out(acts), packets, times, script);
    lemma_carried_payloads(b.rcv_queue);
    assert(receiving::joined(s.snd_queue) =~= Seq::empty());
    assert(carried(script) + receiving::joined(s.snd_queue) =~= carried(script));
}

} // verus!
