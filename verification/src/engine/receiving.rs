//! The receive side: putting segments in order and messages together.
use super::{EngineModel, KcpEngine};
use crate::buffers;
use crate::engine;
use crate::error::KcpCoreResult;
use crate::protocol::{KcpSegment, SegmentModel};
use crate::sequence;
use crate::sequence::seq_before;
use bytes::{Bytes, BytesMut};
use vstd::prelude::*;

verus! {

/// How many segments at the front of `buf` continue the numbering from `nxt`, counting no
/// more than `room`.
pub open spec fn run_len(buf: Seq<SegmentModel>, nxt: u32, room: int) -> nat
    decreases buf.len(),
{
    if buf.len() == 0 || room <= 0 || buf[0].header.sn != nxt {
        0
    } else {
        1 + run_len(buf.skip(1), sequence::advanced(nxt, 1), room - 1)
    }
}

/// How many of the segments come before `sn`, counting from `nxt`.
pub open spec fn slot(buf: Seq<SegmentModel>, nxt: u32, sn: u32) -> nat
    decreases buf.len(),
{
    if buf.len() == 0 {
        0
    } else if sequence::distance(nxt, buf.last().header.sn) < sequence::distance(nxt, sn) {
        buf.len()
    } else {
        slot(buf.drop_last(), nxt, sn)
    }
}

/// A segment with this number is among them.
pub open spec fn holds(buf: Seq<SegmentModel>, sn: u32) -> bool {
    exists|i: int| 0 <= i < buf.len() && (#[trigger] buf[i]).header.sn == sn
}

/// How many segments at the front of the queue make up the first message: those up to the
/// first that says it is the last fragment.
pub open spec fn message_len(queue: Seq<SegmentModel>) -> nat
    decreases queue.len(),
{
    if queue.len() == 0 {
        0
    } else if queue[0].header.frg == 0 {
        1
    } else {
        1 + message_len(queue.skip(1))
    }
}

/// The data of the segments, one after the other.
pub open spec fn joined(segs: Seq<SegmentModel>) -> Seq<u8>
    decreases segs.len(),
{
    if segs.len() == 0 {
        Seq::empty()
    } else {
        joined(segs.drop_last()) + segs.last().data
    }
}

/// The longest message that is handed out: a length is a signed number of 32 bits, and the
/// message has to fit in a buffer.
pub open spec fn message_limit() -> int {
    if i32::MAX <= buffers::buffer_limit() {
        i32::MAX as int
    } else {
        buffers::buffer_limit()
    }
}

impl EngineModel {
    /// How many more segments the application's queue takes.
    pub open spec fn room(self) -> int {
        self.wnd.rcv - self.rcv_queue.len()
    }

    /// The segments that are due move from the buffer to the application's queue, as far as
    /// there is room.
    pub open spec fn pumped(self) -> Self {
        let n = run_len(self.rcv_buf, self.rcv_nxt, self.room()) as int;
        EngineModel {
            rcv_queue: self.rcv_queue + self.rcv_buf.take(n),
            rcv_buf: self.rcv_buf.skip(n),
            rcv_nxt: sequence::advanced(self.rcv_nxt, n),
            ..self
        }
    }

    /// `sn` is due now or later, and within the receive window.
    pub open spec fn awaits(self, sn: u32) -> bool {
        &&& sequence::before(sn, sequence::advanced(self.rcv_nxt, self.wnd.rcv as int))
        &&& !sequence::before(sn, self.rcv_nxt)
    }

    /// A data segment came in: it takes its place in the buffer unless it is there already.
    pub open spec fn stored(self, seg: SegmentModel) -> Self {
        if !self.awaits(seg.header.sn) {
            self
        } else if holds(self.rcv_buf, seg.header.sn) {
            self.pumped()
        } else {
            EngineModel {
                rcv_buf: self.rcv_buf.insert(
                    slot(self.rcv_buf, self.rcv_nxt, seg.header.sn) as int,
                    seg,
                ),
                ..self
            }.pumped()
        }
    }

    /// The first message is complete: the queue holds as many fragments as its first segment
    /// announces.
    pub open spec fn first_complete(self) -> bool {
        &&& self.rcv_queue.len() > 0
        &&& self.rcv_queue.len() > self.rcv_queue[0].header.frg
    }

    /// The first message.
    pub open spec fn first_message(self) -> Seq<u8> {
        joined(self.rcv_queue.take(message_len(self.rcv_queue) as int))
    }

    /// There is a message to hand out.
    pub open spec fn has_message(self) -> bool {
        self.first_complete() && 0 < self.first_message().len() <= message_limit()
    }

    /// The first message has been taken.
    pub open spec fn received(self) -> Self {
        let was_full = self.rcv_queue.len() >= self.wnd.rcv;
        let after = EngineModel {
            rcv_queue: self.rcv_queue.skip(message_len(self.rcv_queue) as int),
            stats: crate::protocol::KcpStats {
                bytes_received: ((self.stats.bytes_received + self.first_message().len())
                    % 0x1_0000_0000_0000_0000) as u64,
                ..self.stats
            },
            ..self
        }.pumped();
        if was_full && after.rcv_queue.len() < after.wnd.rcv {
            EngineModel {
                probe: crate::engine::ProbeState { ask_tell: true, ..after.probe },
                ..after
            }
        } else {
            after
        }
    }
}

/// A run is no longer than the buffer and the room.
pub proof fn lemma_run_len(buf: Seq<SegmentModel>, nxt: u32, room: int)
    ensures
        run_len(buf, nxt, room) <= buf.len(),
        run_len(buf, nxt, room) <= (if room <= 0 {
            0
        } else {
            room
        }),
    decreases buf.len(),
{
    if buf.len() == 0 || room <= 0 || buf[0].header.sn != nxt {
    } else {
        lemma_run_len(buf.skip(1), sequence::advanced(nxt, 1), room - 1);
    }
}

/// Counting up in two steps.
pub proof fn lemma_advanced_twice(from: u32, n: int, m: int)
    requires
        0 <= n,
        0 <= m,
    ensures
        sequence::advanced(sequence::advanced(from, n), m) == sequence::advanced(from, n + m),
{
    assert(((from + n) % 0x1_0000_0000 + m) % 0x1_0000_0000 == (from + (n + m)) % 0x1_0000_0000)
        by (nonlinear_arith);
}

/// A run starts where counting starts, and goes on by one.
pub proof fn lemma_run_numbers(buf: Seq<SegmentModel>, nxt: u32, room: int, i: int)
    requires
        0 <= i < run_len(buf, nxt, room),
    ensures
        buf[i].header.sn == sequence::advanced(nxt, i),
    decreases buf.len(),
{
    lemma_run_len(buf, nxt, room);
    if i > 0 {
        lemma_run_numbers(buf.skip(1), sequence::advanced(nxt, 1), room - 1, i - 1);
        lemma_advanced_twice(nxt, 1, i - 1);
    }
}

/// Where a slot lies: what is before it comes earlier, what is after it does not.
pub proof fn lemma_slot(buf: Seq<SegmentModel>, nxt: u32, sn: u32)
    requires
        engine::in_order(buf, nxt, sequence::half_circle()),
    ensures
        slot(buf, nxt, sn) <= buf.len(),
        forall|i: int|
            0 <= i < slot(buf, nxt, sn) ==> sequence::distance(
                nxt,
                (#[trigger] buf[i]).header.sn,
            ) < sequence::distance(nxt, sn),
        forall|i: int|
            slot(buf, nxt, sn) <= i < buf.len() ==> sequence::distance(
                nxt,
                (#[trigger] buf[i]).header.sn,
            ) >= sequence::distance(nxt, sn),
    decreases buf.len(),
{
    if buf.len() == 0 {
    } else if sequence::distance(nxt, buf.last().header.sn) < sequence::distance(nxt, sn) {
    } else {
        let rest = buf.drop_last();
        assert(forall|i: int| 0 <= i < rest.len() ==> rest[i] == buf[i]);
        lemma_slot(rest, nxt, sn);
        assert(forall|i: int| 0 <= i < rest.len() ==> buf[i] == rest[i]);
    }
}

/// Distances shrink by `n` when counting starts `n` later.
pub proof fn lemma_distance_shift(base: u32, n: int, sn: u32)
    requires
        0 <= n <= sequence::distance(base, sn),
    ensures
        sequence::distance(sequence::advanced(base, n), sn) == sequence::distance(base, sn) - n,
{
}

/// Moving segments to the application's queue keeps the receive side in order.
pub proof fn lemma_pumped_wf(m: EngineModel)
    requires
        m.receive_wf(),
    ensures
        m.pumped().receive_wf(),
{
    let n = run_len(m.rcv_buf, m.rcv_nxt, m.room()) as int;
    let nxt = m.rcv_nxt;
    lemma_run_len(m.rcv_buf, nxt, m.room());
    let rest = m.rcv_buf.skip(n);
    assert forall|i: int| 0 <= i < rest.len() implies sequence::distance(
        nxt,
        (#[trigger] rest[i]).header.sn,
    ) >= n by {
        if n > 0 {
            lemma_run_numbers(m.rcv_buf, nxt, m.room(), n - 1);
            let a = m.rcv_buf[n - 1];
            let b = m.rcv_buf[i + n];
            assert(sequence::distance(nxt, a.header.sn) < sequence::distance(nxt, b.header.sn));
            lemma_run_position(m.rcv_buf, nxt, m.room(), n - 1);
        }
    }
    assert forall|i: int| 0 <= i < rest.len() implies sequence::distance(
        sequence::advanced(nxt, n),
        (#[trigger] rest[i]).header.sn,
    ) == sequence::distance(nxt, m.rcv_buf[i + n].header.sn) - n by {
        lemma_distance_shift(nxt, n, rest[i].header.sn);
    }
}

/// In a run that is in order, the numbers stand as far from the start as their places.
pub proof fn lemma_run_position(buf: Seq<SegmentModel>, nxt: u32, room: int, i: int)
    requires
        engine::in_order(buf, nxt, sequence::half_circle()),
        0 <= i < run_len(buf, nxt, room),
    ensures
        sequence::distance(nxt, buf[i].header.sn) == i,
    decreases i,
{
    lemma_run_len(buf, nxt, room);
    lemma_run_numbers(buf, nxt, room, i);
    if i > 0 {
        lemma_run_position(buf, nxt, room, i - 1);
        assert(sequence::distance(nxt, buf[i - 1].header.sn) < sequence::distance(
            nxt,
            buf[i].header.sn,
        ));
    }
    lemma_small_advance(nxt, i, buf[i].header.sn);
}

/// Counting up `i` less than once around leads `i` away.
proof fn lemma_small_advance(nxt: u32, i: int, sn: u32)
    requires
        sn == sequence::advanced(nxt, i),
        0 <= i,
        i <= sequence::distance(nxt, sn) < sequence::half_circle(),
    ensures
        sequence::distance(nxt, sn) == i,
{
    let d = sequence::distance(nxt, sn);
}

/// For numbers on the near half of the circle, to come before is to be nearer.
pub proof fn lemma_before_by_distance(base: u32, a: u32, b: u32)
    requires
        sequence::distance(base, a) < sequence::half_circle(),
        sequence::distance(base, b) < sequence::half_circle(),
    ensures
        sequence::before(a, b) == (sequence::distance(base, a) < sequence::distance(base, b)),
        a == b <==> sequence::distance(base, a) == sequence::distance(base, b),
{
}

/// A number takes its slot without upsetting the order.
pub proof fn lemma_insert_in_order(buf: Seq<SegmentModel>, nxt: u32, seg: SegmentModel)
    requires
        engine::in_order(buf, nxt, sequence::half_circle()),
        sequence::distance(nxt, seg.header.sn) < sequence::half_circle(),
        !holds(buf, seg.header.sn),
    ensures
        engine::in_order(
            buf.insert(slot(buf, nxt, seg.header.sn) as int, seg),
            nxt,
            sequence::half_circle(),
        ),
{
    let p = slot(buf, nxt, seg.header.sn) as int;
    lemma_slot(buf, nxt, seg.header.sn);
    let next = buf.insert(p, seg);
    let d = sequence::distance(nxt, seg.header.sn);
    assert forall|i: int| p <= i < buf.len() implies sequence::distance(
        nxt,
        (#[trigger] buf[i]).header.sn,
    ) > d by {
        lemma_before_by_distance(nxt, buf[i].header.sn, seg.header.sn);
    }
    assert forall|i: int| 0 <= i < next.len() implies (#[trigger] next[i]) == (if i < p {
        buf[i]
    } else if i == p {
        seg
    } else {
        buf[i - 1]
    }) by {}
}

/// Storing a segment keeps the receive side in order.
pub proof fn lemma_stored_wf(m: EngineModel, seg: SegmentModel)
    requires
        m.receive_wf(),
    ensures
        m.stored(seg).receive_wf(),
{
    lemma_pumped_wf(m);
    if m.awaits(seg.header.sn) && !holds(m.rcv_buf, seg.header.sn) {
        lemma_insert_in_order(m.rcv_buf, m.rcv_nxt, seg);
        lemma_pumped_wf(
            EngineModel {
                rcv_buf: m.rcv_buf.insert(slot(m.rcv_buf, m.rcv_nxt, seg.header.sn) as int, seg),
                ..m
            },
        );
    }
}

/// The first message is not longer than the queue.
pub proof fn lemma_message_len(queue: Seq<SegmentModel>)
    ensures
        message_len(queue) <= queue.len(),
        queue.len() > 0 ==> message_len(queue) > 0,
    decreases queue.len(),
{
    if queue.len() > 0 && queue[0].header.frg != 0 {
        lemma_message_len(queue.skip(1));
    }
}

/// One more segment adds its data.
pub proof fn lemma_joined_push(segs: Seq<SegmentModel>, i: int)
    requires
        0 <= i < segs.len(),
    ensures
        joined(segs.take(i + 1)) == joined(segs.take(i)) + segs[i].data,
{
    assert(segs.take(i + 1).drop_last() =~= segs.take(i));
}

/// More segments make no less data.
pub proof fn lemma_joined_grows(segs: Seq<SegmentModel>, i: int, j: int)
    requires
        0 <= i <= j <= segs.len(),
    ensures
        joined(segs.take(i)).len() <= joined(segs.take(j)).len(),
    decreases j - i,
{
    if i < j {
        lemma_joined_grows(segs, i, j - 1);
        lemma_joined_push(segs, j - 1);
    }
}

impl KcpEngine {
    /// Moves the segments that are due from the receive buffer to the receive queue.
    pub(super) fn move_to_recv_queue(&mut self)
        requires
            old(self)@.receive_wf(),
        ensures
            final(self)@ == old(self)@.pumped(),
            final(self)@.receive_wf(),
    {
        let ghost start = self@;
        let ghost mut n: int = 0;
        proof {
            assert(start.rcv_buf.skip(0) =~= start.rcv_buf);
            assert(start.rcv_queue + start.rcv_buf.take(0) =~= start.rcv_queue);
            lemma_run_len(start.rcv_buf, start.rcv_nxt, start.room());
        }
        while self.rcv_buf.len() > 0 && self.rcv_buf[0].header.sn == self.rcv_nxt
            && self.rcv_queue.len() < self.wnd.rcv as usize
            invariant
                start.receive_wf(),
                0 <= n <= start.rcv_buf.len(),
                n <= start.room(),
                self@ == (EngineModel {
                    rcv_queue: start.rcv_queue + start.rcv_buf.take(n),
                    rcv_buf: start.rcv_buf.skip(n),
                    rcv_nxt: sequence::advanced(start.rcv_nxt, n),
                    ..start
                }),
                n + run_len(self@.rcv_buf, self@.rcv_nxt, self@.room()) == run_len(
                    start.rcv_buf,
                    start.rcv_nxt,
                    start.room(),
                ),
            decreases self.rcv_buf@.len(),
        {
            proof {
                engine::lemma_models_front(self.rcv_buf@);
            }
            match self.rcv_buf.pop_front() {
                Some(segment) => {
                    proof {
                        engine::lemma_models_push(self.rcv_queue@, segment);
                        lemma_advanced_twice(start.rcv_nxt, n, 1);
                    }
                    self.rcv_queue.push_back(segment);
                    self.rcv_nxt = self.rcv_nxt.wrapping_add(1);
                    proof {
                        assert(start.rcv_queue + start.rcv_buf.take(n + 1) =~= (start.rcv_queue
                            + start.rcv_buf.take(n)).push(start.rcv_buf[n]));
                        assert(start.rcv_buf.skip(n).skip(1) =~= start.rcv_buf.skip(n + 1));
                        n = n + 1;
                    }
                },
                None => {},
            }
        }
        proof {
            lemma_pumped_wf(start);
        }
    }

    /// Puts a data segment in its place and moves on what is due.
    pub(super) fn parse_data(&mut self, newseg: KcpSegment)
        requires
            old(self)@.receive_wf(),
        ensures
            final(self)@ == old(self)@.stored(newseg@),
            final(self)@.receive_wf(),
    {
        let sn: u32 = newseg.header.sn;
        let ghost start = self@;
        proof {
            lemma_stored_wf(start, newseg@);
        }
        if !seq_before(sn, self.rcv_nxt.wrapping_add(self.wnd.rcv)) || seq_before(
            sn,
            self.rcv_nxt,
        ) {
            return ;
        }
        let mut insert_pos: usize = self.rcv_buf.len();
        let mut repeat = false;
        let mut found = false;
        while insert_pos > 0 && !found
            invariant
                self@ == start,
                start.receive_wf(),
                insert_pos <= self.rcv_buf@.len(),
                sequence::distance(start.rcv_nxt, sn) < sequence::half_circle(),
                forall|i: int|
                    insert_pos <= i < start.rcv_buf.len() ==> sequence::distance(
                        start.rcv_nxt,
                        (#[trigger] start.rcv_buf[i]).header.sn,
                    ) > sequence::distance(start.rcv_nxt, sn),
                repeat ==> found,
                found ==> insert_pos > 0 && repeat == (start.rcv_buf[insert_pos - 1].header.sn
                    == sn) && sequence::distance(
                    start.rcv_nxt,
                    start.rcv_buf[insert_pos - 1].header.sn,
                ) <= sequence::distance(start.rcv_nxt, sn),
            decreases insert_pos + (if found { 0int } else { 1int }),
        {
            let there: u32 = self.rcv_buf[insert_pos - 1].header.sn;
            proof {
                assert(start.rcv_buf[insert_pos - 1].header.sn == there);
                lemma_before_by_distance(start.rcv_nxt, sn, there);
            }
            if there == sn {
                repeat = true;
                found = true;
            } else if seq_before(sn, there) {
                insert_pos = insert_pos - 1;
            } else {
                found = true;
            }
        }
        proof {
            lemma_slot(start.rcv_buf, start.rcv_nxt, sn);
            let p = slot(start.rcv_buf, start.rcv_nxt, sn) as int;
            if repeat {
                assert(start.rcv_buf[insert_pos - 1].header.sn == sn);
            } else {
                if insert_pos > 0 {
                    lemma_before_by_distance(
                        start.rcv_nxt,
                        start.rcv_buf[insert_pos - 1].header.sn,
                        sn,
                    );
                }
                assert forall|i: int| 0 <= i < start.rcv_buf.len() implies (
                #[trigger] start.rcv_buf[i]).header.sn != sn by {
                    if i < insert_pos - 1 {
                        assert(sequence::distance(start.rcv_nxt, start.rcv_buf[i].header.sn)
                            < sequence::distance(
                            start.rcv_nxt,
                            start.rcv_buf[insert_pos - 1].header.sn,
                        ));
                    }
                }
                if p < insert_pos {
                    assert(sequence::distance(start.rcv_nxt, start.rcv_buf[insert_pos - 1].header.sn)
                        >= sequence::distance(start.rcv_nxt, sn));
                }
                if p > insert_pos {
                    assert(sequence::distance(start.rcv_nxt, start.rcv_buf[insert_pos as int].header.sn)
                        < sequence::distance(start.rcv_nxt, sn));
                }
                assert(p == insert_pos);
                lemma_insert_in_order(start.rcv_buf, start.rcv_nxt, newseg@);
            }
        }
        if !repeat {
            let ghost before = self.rcv_buf@;
            self.rcv_buf.insert(insert_pos, newseg);
            assert(self@.rcv_buf =~= start.rcv_buf.insert(insert_pos as int, newseg@));
        }
        self.move_to_recv_queue();
    }

    /// How long the first message is, if there is one to hand out.
    fn peek_size(&self) -> (r: Option<usize>)
        requires
            self@.receive_wf(),
        ensures
            r is Some <==> self@.has_message(),
            r matches Some(n) ==> n == self@.first_message().len(),
    {
        if self.rcv_queue.len() == 0 {
            return None;
        }
        assert(self@.rcv_queue[0].header == self.rcv_queue@[0].header);
        if self.rcv_queue.len() <= self.rcv_queue[0].header.frg as usize {
            return None;
        }
        let limit: usize = if (i32::MAX as usize) < usize::MAX / 4 {
            i32::MAX as usize
        } else {
            usize::MAX / 4
        };
        let ghost queue = self@.rcv_queue;
        let mut length: usize = 0;
        let mut i: usize = 0;
        let mut last = false;
        proof {
            assert(queue.skip(0) =~= queue);
        }
        while i < self.rcv_queue.len() && !last
            invariant
                queue == self@.rcv_queue,
                queue.len() > 0,
                limit == message_limit(),
                0 <= i <= queue.len(),
                last ==> i > 0 && i == message_len(queue),
                !last ==> i + message_len(queue.skip(i as int)) == message_len(queue),
                length == joined(queue.take(i as int)).len(),
                length <= limit,
                self@.first_complete(),
            decreases queue.len() - i,
        {
            let n: usize = self.rcv_queue[i].data.len();
            proof {
                assert(queue[i as int].data.len() == n);
                assert(queue.skip(i as int)[0] == queue[i as int]);
                assert(queue.skip(i as int).skip(1) =~= queue.skip(i + 1));
                lemma_joined_push(queue, i as int);
                lemma_message_len(queue.skip(i + 1));
                lemma_message_len(queue);
            }
            if n > limit - length {
                proof {
                    lemma_joined_grows(queue, i + 1, message_len(queue) as int);
                }
                return None;
            }
            length = length + n;
            last = self.rcv_queue[i].header.frg == 0;
            assert(queue[i as int].header == self.rcv_queue@[i as int].header);
            i = i + 1;
        }
        proof {
            if !last {
                assert(queue.skip(i as int).len() == 0);
            }
        }
        if length == 0 {
            None
        } else {
            Some(length)
        }
    }

    /// Receive data: the first message, if it is complete.
    pub fn recv(&mut self) -> (r: KcpCoreResult<Option<Bytes>>)
        requires
            old(self).wf(),
        ensures
            final(self).wf(),
            r is Ok,
            old(self)@.has_message() ==> r->Ok_0 is Some && buffers::bytes_of(r->Ok_0->0)
                == old(self)@.first_message() && final(self)@ == old(self)@.received(),
            !old(self)@.has_message() ==> r->Ok_0 is None && final(self)@ == old(self)@,
    {
        let size: usize = match self.peek_size() {
            None => {
                return Ok(None);
            },
            Some(n) => n,
        };
        let ghost start = self@;
        let ghost queue = start.rcv_queue;
        let mut data = BytesMut::with_capacity(size);
        let was_full = self.rcv_queue.len() >= self.wnd.rcv as usize;
        let ghost mut n: int = 0;
        let mut last = false;
        proof {
            assert(queue.skip(0) =~= queue);
            lemma_message_len(queue);
        }
        while self.rcv_queue.len() > 0 && !last
            invariant
                queue == start.rcv_queue,
                0 <= n <= queue.len(),
                self@ == (EngineModel { rcv_queue: queue.skip(n), ..start }),
                last ==> n == message_len(queue),
                !last ==> n + message_len(queue.skip(n)) == message_len(queue),
                message_len(queue) <= queue.len(),
                buffers::buf_of(data) == joined(queue.take(n)),
                joined(queue.take(message_len(queue) as int)).len() <= message_limit(),
            decreases self.rcv_queue@.len(),
        {
            proof {
                engine::lemma_models_front(self.rcv_queue@);
            }
            match self.rcv_queue.pop_front() {
                Some(segment) => {
                    proof {
                        assert(queue.skip(n)[0] == queue[n]);
                        assert(queue.skip(n).skip(1) =~= queue.skip(n + 1));
                        lemma_joined_push(queue, n);
                        lemma_message_len(queue.skip(n + 1));
                        lemma_joined_grows(queue, n + 1, message_len(queue) as int);
                    }
                    buffers::extend(&mut data, &segment.data);
                    last = segment.header.frg == 0;
                    proof {
                        n = n + 1;
                    }
                },
                None => {},
            }
        }
        proof {
            if !last {
                assert(queue.skip(n).len() == 0);
            }
        }
        self.stats.bytes_received = self.stats.bytes_received.wrapping_add(data.len() as u64);
        self.move_to_recv_queue();
        if was_full && self.rcv_queue.len() < self.wnd.rcv as usize {
            self.probe.ask_tell = true;
        }
        Ok(Some(data.freeze()))
    }

    /// How much of the receive window is left.
    pub(super) fn wnd_unused(&self) -> (r: u32)
        requires
            self@.receive_wf(),
        ensures
            r == self@.room(),
    {
        self.wnd.rcv - self.rcv_queue.len() as u32
    }
}

} // verus!
