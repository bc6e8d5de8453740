//! The send side: cutting messages into segments and giving the segments numbers.
use super::{EngineModel, KcpEngine};
use crate::buffers;
use crate::engine;
use crate::error::{KcpCoreError, KcpCoreResult};
use crate::protocol::constants;
use crate::protocol::{KcpHeader, KcpSegment, SegmentModel};
use crate::sequence;
use bytes::{Bytes, BytesMut};
use vstd::prelude::*;

verus! {

/// The data cut into pieces of `mss` bytes; the last piece may be shorter.
pub open spec fn chunks(data: Seq<u8>, mss: int) -> Seq<Seq<u8>>
    decreases data.len(),
{
    if data.len() == 0 || mss <= 0 {
        Seq::empty()
    } else if data.len() <= mss {
        seq![data]
    } else {
        seq![data.take(mss)] + chunks(data.skip(mss), mss)
    }
}

/// How many pieces `len` bytes make.
pub open spec fn chunk_count(len: int, mss: int) -> int {
    (len + mss - 1) / mss
}

/// A data segment that waits for its number.
pub open spec fn waiting(conv: u32, frg: u8, data: Seq<u8>) -> SegmentModel {
    SegmentModel::fresh(
        KcpHeader {
            conv,
            cmd: constants::IKCP_CMD_PUSH,
            frg,
            wnd: 0,
            ts: 0,
            sn: 0,
            una: 0,
            len: data.len() as u32,
        },
        data,
    )
}

/// The pieces of a message as segments. Each says how many are still to come, unless there
/// are no message boundaries to keep.
pub open spec fn fragments(conv: u32, pieces: Seq<Seq<u8>>, stream: bool) -> Seq<SegmentModel> {
    Seq::new(
        pieces.len(),
        |i: int|
            waiting(
                conv,
                if stream {
                    0
                } else {
                    (pieces.len() - 1 - i) as u8
                },
                pieces[i],
            ),
    )
}

/// How many bytes of new data the last waiting segment still takes.
pub open spec fn spare(queue: Seq<SegmentModel>, len: int, mss: int) -> int {
    if queue.len() == 0 || queue.last().data.len() >= mss {
        0
    } else if len < mss - queue.last().data.len() {
        len
    } else {
        mss - queue.last().data.len()
    }
}

/// The segment with more data at its end.
pub open spec fn extended(seg: SegmentModel, more: Seq<u8>) -> SegmentModel {
    SegmentModel {
        header: KcpHeader { len: (seg.data.len() + more.len()) as u32, ..seg.header },
        data: seg.data + more,
        ..seg
    }
}

/// The queue after its last segment has taken in the first `n` bytes of `data`.
pub open spec fn topped_up(queue: Seq<SegmentModel>, data: Seq<u8>, n: int) -> Seq<SegmentModel> {
    if n == 0 {
        queue
    } else {
        queue.update(queue.len() - 1, extended(queue.last(), data.take(n)))
    }
}

impl EngineModel {
    /// How many fragments a message may have: what the receive queue of a peer with the same
    /// window holds, and no more than the default receive window.
    pub open spec fn fragment_limit(self) -> int {
        if self.wnd.rcv < constants::IKCP_WND_RCV {
            self.wnd.rcv as int
        } else {
            constants::IKCP_WND_RCV as int
        }
    }

    /// A message of `len` bytes can be sent.
    pub open spec fn accepts(self, len: int) -> bool {
        len == 0 || chunk_count(len, self.mss()) <= self.fragment_limit()
    }

    /// The message has been queued.
    pub open spec fn queued(self, data: Seq<u8>) -> Self {
        let n = if self.config.stream_mode {
            spare(self.snd_queue, data.len() as int, self.mss())
        } else {
            0
        };
        EngineModel {
            snd_queue: topped_up(self.snd_queue, data, n) + fragments(
                self.conv,
                chunks(data.skip(n), self.mss()),
                self.config.stream_mode,
            ),
            stats: crate::protocol::KcpStats {
                bytes_sent: ((self.stats.bytes_sent + data.len()) % 0x1_0000_0000_0000_0000) as u64,
                ..self.stats
            },
            ..self
        }
    }

    /// How many segments may be in flight.
    pub open spec fn send_window(self) -> int {
        let w = if self.wnd.snd < self.wnd.rmt {
            self.wnd.snd
        } else {
            self.wnd.rmt
        };
        if self.config.nodelay.no_congestion_control || w < self.wnd.cwnd {
            w as int
        } else {
            self.wnd.cwnd as int
        }
    }

    /// How many waiting segments may be given a number now.
    pub open spec fn movable(self) -> int {
        let n = self.send_window() - self.inflight();
        if n <= 0 {
            0
        } else if n < self.snd_queue.len() {
            n
        } else {
            self.snd_queue.len() as int
        }
    }

    /// What the window field of an outgoing segment says.
    pub open spec fn advertised(self) -> u16 {
        (self.room() % 0x1_0000) as u16
    }

    /// A waiting segment that gets the number `sn` at the time `now`.
    pub open spec fn numbered(self, seg: SegmentModel, sn: u32, now: u32) -> SegmentModel {
        SegmentModel {
            header: KcpHeader {
                conv: self.conv,
                cmd: constants::IKCP_CMD_PUSH,
                frg: seg.header.frg,
                wnd: self.advertised(),
                ts: now,
                sn,
                una: self.rcv_nxt,
                len: seg.header.len,
            },
            data: seg.data,
            resendts: now,
            rto: self.rtt.rto,
            fastack: 0,
            xmit: 0,
        }
    }

    /// The first `n` waiting segments have been given the next numbers.
    pub open spec fn moved(self, n: int, now: u32) -> Self {
        EngineModel {
            snd_queue: self.snd_queue.skip(n),
            snd_buf: self.snd_buf + Seq::new(
                n as nat,
                |i: int|
                    self.numbered(self.snd_queue[i], sequence::advanced(self.snd_nxt, i), now),
            ),
            snd_nxt: sequence::advanced(self.snd_nxt, n),
            ..self
        }
    }
}

/// The pieces are as many as the count says, and none is empty or too long.
pub proof fn lemma_chunks(data: Seq<u8>, mss: int)
    requires
        mss > 0,
    ensures
        chunks(data, mss).len() == chunk_count(data.len() as int, mss),
        forall|i: int|
            0 <= i < chunks(data, mss).len() ==> 0 < (#[trigger] chunks(data, mss)[i]).len() <= mss,
    decreases data.len(),
{
    let len = data.len() as int;
    if len == 0 {
        assert((mss - 1) / mss == 0) by (nonlinear_arith)
            requires
                mss > 0,
        ;
    } else if len <= mss {
        assert((len + mss - 1) / mss == 1) by (nonlinear_arith)
            requires
                0 < len <= mss,
        ;
    } else {
        lemma_chunks(data.skip(mss), mss);
        assert((len + mss - 1) / mss == 1 + (len - mss + mss - 1) / mss) by (nonlinear_arith)
            requires
                mss < len,
                mss > 0,
        ;
        let rest = chunks(data.skip(mss), mss);
        assert forall|i: int| 0 <= i < chunks(data, mss).len() implies 0 < (#[trigger] chunks(
            data,
            mss,
        )[i]).len() <= mss by {
            if i > 0 {
                assert(chunks(data, mss)[i] == rest[i - 1]);
            }
        }
    }
}

impl KcpEngine {
    /// Maximum segment size (transmission unit minus overhead).
    pub(super) fn mss(&self) -> (r: u32)
        requires
            self@.settings_wf(),
        ensures
            r == self@.mss(),
            r > 0,
    {
        self.config.mtu - constants::IKCP_OVERHEAD
    }

    /// Queues the data from `start` on as segments.
    fn push_fragments(&mut self, data: &Bytes, start: usize, count: usize, stream: bool)
        requires
            old(self)@.settings_wf(),
            sendable_queue(old(self)@),
            start <= buffers::bytes_of(*data).len(),
            count == chunks(buffers::bytes_of(*data).skip(start as int), old(self)@.mss()).len(),
            stream || count <= 128,
        ensures
            final(self)@ == (EngineModel {
                snd_queue: old(self)@.snd_queue + fragments(
                    old(self)@.conv,
                    chunks(buffers::bytes_of(*data).skip(start as int), old(self)@.mss()),
                    stream,
                ),
                ..old(self)@
            }),
            sendable_queue(final(self)@),
    {
        let mss: usize = self.mss() as usize;
        let len: usize = data.len();
        let ghost bytes = buffers::bytes_of(*data);
        let ghost m = self@;
        let ghost pieces = chunks(bytes.skip(start as int), mss as int);
        let ghost all = fragments(m.conv, pieces, stream);
        let mut offset: usize = start;
        let mut i: usize = 0;
        proof {
            assert(pieces.skip(0) =~= pieces);
            assert(m.snd_queue + all.take(0) =~= m.snd_queue);
            lemma_chunks(bytes.skip(start as int), mss as int);
        }
        while offset < len
            invariant
                m == old(self)@,
                m.settings_wf(),
                sendable_queue(m),
                mss == m.mss(),
                mss > 0,
                len == bytes.len(),
                bytes == buffers::bytes_of(*data),
                len <= isize::MAX,
                mss <= usize::MAX / 8,
                start <= offset <= len,
                count == pieces.len(),
                stream || count <= 128,
                i <= count,
                all == fragments(m.conv, pieces, stream),
                forall|k: int|
                    0 <= k < pieces.len() ==> 0 < (#[trigger] pieces[k]).len() <= mss,
                pieces.skip(i as int) == chunks(bytes.skip(offset as int), mss as int),
                self@ == (EngineModel { snd_queue: m.snd_queue + all.take(i as int), ..m }),
            decreases len - offset,
        {
            let ghost rest = bytes.skip(offset as int);
            let size: usize = if len - offset < mss {
                len - offset
            } else {
                mss
            };
            proof {
                assert(rest.len() == len - offset);
                assert(pieces.skip(i as int).len() > 0);
                assert(pieces.skip(i as int)[0] == pieces[i as int]);
                assert(bytes.subrange(offset as int, offset + size) =~= rest.take(size as int));
                assert(rest.take(rest.len() as int) =~= rest);
                assert(rest.skip(size as int) =~= bytes.skip(offset + size));
                assert(pieces.skip(i as int).skip(1) =~= pieces.skip(i + 1));
                if rest.len() > mss {
                    assert(chunks(rest, mss as int).skip(1) =~= chunks(
                        rest.skip(mss as int),
                        mss as int,
                    ));
                } else {
                    assert(pieces.skip(i + 1).len() == 0);
                    assert(pieces.skip(i + 1) =~= chunks(bytes.skip(offset + size), mss as int));
                }
            }
            let piece = buffers::slice(data, offset, offset + size);
            let mut segment = KcpSegment::new_at(self.conv, constants::IKCP_CMD_PUSH, 0, piece);
            if !stream {
                segment.header.frg = (count - i - 1) as u8;
            }
            proof {
                engine::lemma_models_push(self.snd_queue@, segment);
                assert(segment@ == all[i as int]);
                assert(m.snd_queue + all.take(i + 1) =~= (m.snd_queue + all.take(i as int)).push(
                    all[i as int],
                ));
            }
            self.snd_queue.push_back(segment);
            offset = offset + size;
            i = i + 1;
        }
        proof {
            assert(chunks(bytes.skip(offset as int), mss as int).len() == 0);
            assert(pieces.skip(i as int).len() == 0);
            assert(all.take(i as int) =~= all);
            lemma_fragments_sendable(m.snd_queue, m.conv, pieces, stream, mss as int);
        }
    }

    /// Send data: queue it, as one message or as a part of the stream.
    pub fn send(&mut self, data: Bytes) -> (r: KcpCoreResult<()>)
        requires
            old(self).wf(),
        ensures
            final(self).wf(),
            old(self)@.accepts(buffers::bytes_of(data).len() as int) ==> r is Ok && final(self)@
                == old(self)@.queued(buffers::bytes_of(data)),
            !old(self)@.accepts(buffers::bytes_of(data).len() as int) ==> r is Err
                && r->Err_0.is_buffer("Message too large for window"@) && final(self)@
                == old(self)@,
    {
        let len: usize = data.len();
        let ghost bytes = buffers::bytes_of(data);
        let ghost m = self@;
        if len == 0 {
            proof {
                assert(bytes.skip(0) =~= bytes);
                assert(chunks(bytes, m.mss()).len() == 0);
                assert(m.snd_queue + fragments(
                    m.conv,
                    chunks(bytes.skip(0), m.mss()),
                    m.config.stream_mode,
                ) =~= m.snd_queue);
                assert((m.stats.bytes_sent + 0) % 0x1_0000_0000_0000_0000 == m.stats.bytes_sent);
                assert(m.queued(bytes) =~= m);
            }
            return Ok(());
        }
        let mss: usize = self.mss() as usize;
        let count: usize = (len + mss - 1) / mss;
        let limit: u32 = if self.wnd.rcv < constants::IKCP_WND_RCV {
            self.wnd.rcv
        } else {
            constants::IKCP_WND_RCV
        };
        if count > limit as usize {
            return Err(KcpCoreError::buffer("Message too large for window"));
        }
        proof {
            lemma_chunks(bytes, mss as int);
            assert(bytes.skip(0) =~= bytes);
        }
        if self.config.stream_mode {
            let taken: usize = self.top_up(&data);
            proof {
                lemma_chunks(bytes.skip(taken as int), mss as int);
            }
            let rest: usize = (len - taken + mss - 1) / mss;
            self.push_fragments(&data, taken, rest, true);
        } else {
            self.push_fragments(&data, 0, count, false);
        }
        self.stats.bytes_sent = self.stats.bytes_sent.wrapping_add(len as u64);
        Ok(())
    }

    /// Lets the last waiting segment take in data as far as it has room, and says how much.
    fn top_up(&mut self, data: &Bytes) -> (n: usize)
        requires
            old(self)@.settings_wf(),
            sendable_queue(old(self)@),
        ensures
            n == spare(
                old(self)@.snd_queue,
                buffers::bytes_of(*data).len() as int,
                old(self)@.mss(),
            ),
            n <= buffers::bytes_of(*data).len(),
            final(self)@ == (EngineModel {
                snd_queue: topped_up(
                    old(self)@.snd_queue,
                    buffers::bytes_of(*data),
                    n as int,
                ),
                ..old(self)@
            }),
            sendable_queue(final(self)@),
    {
        let ghost m = self@;
        let ghost bytes = buffers::bytes_of(*data);
        let mss: usize = self.mss() as usize;
        let waiting: usize = self.snd_queue.len();
        if waiting == 0 {
            return 0;
        }
        assert(m.snd_queue.last() == self.snd_queue@[waiting - 1]@);
        let held: usize = self.snd_queue[waiting - 1].data.len();
        if held >= mss {
            return 0;
        }
        let n: usize = if data.len() < mss - held {
            data.len()
        } else {
            mss - held
        };
        if n == 0 {
            return 0;
        }
        let ghost segs = self.snd_queue@;
        match self.snd_queue.pop_back() {
            Some(last) => {
                let mut whole = BytesMut::with_capacity(held + n);
                buffers::extend(&mut whole, &last.data);
                buffers::extend(&mut whole, &buffers::slice(data, 0, n));
                assert(bytes.subrange(0, n as int) =~= bytes.take(n as int));
                let mut segment = last;
                segment.data = whole.freeze();
                segment.header.len = (held + n) as u32;
                proof {
                    assert(segment@ =~= extended(m.snd_queue.last(), bytes.take(n as int)));
                }
                self.snd_queue.push_back(segment);
                proof {
                    assert(engine::models(self.snd_queue@) =~= topped_up(
                        m.snd_queue,
                        bytes,
                        n as int,
                    ));
                }
            },
            None => {},
        }
        n
    }

    /// How many more segments may be in flight.
    pub(super) fn window_left(&self) -> (r: u32)
        requires
            self.wf(),
        ensures
            r == (if self@.send_window() <= self@.inflight() {
                0
            } else {
                self@.send_window() - self@.inflight()
            }),
    {
        let smaller: u32 = if self.wnd.snd < self.wnd.rmt {
            self.wnd.snd
        } else {
            self.wnd.rmt
        };
        let cwnd: u32 = if self.config.nodelay.no_congestion_control || smaller < self.wnd.cwnd {
            smaller
        } else {
            self.wnd.cwnd
        };
        let inflight: u32 = self.snd_nxt.wrapping_sub(self.snd_una);
        if inflight < cwnd {
            cwnd - inflight
        } else {
            0
        }
    }

    /// Gives numbers to waiting segments, as far as the windows allow.
    pub(super) fn move_to_send_buf(&mut self, current: u32)
        requires
            old(self).wf(),
        ensures
            final(self)@ == old(self)@.moved(old(self)@.movable(), current),
            final(self).wf(),
    {
        let ghost m = self@;
        let wnd: u16 = (self.wnd_unused() % 0x1_0000) as u16;
        let mut left: u32 = self.window_left();
        let ghost total = left as int;
        let ghost mut n: int = 0;
        proof {
            assert(m.snd_queue.skip(0) =~= m.snd_queue);
            assert(m.moved(0, current) =~= m);
        }
        while left > 0 && self.snd_queue.len() > 0
            invariant
                m == old(self)@,
                m.wf(),
                wnd == m.advertised(),
                0 <= n <= m.snd_queue.len(),
                n + left == total,
                total == (if m.send_window() <= m.inflight() {
                    0
                } else {
                    m.send_window() - m.inflight()
                }),
                total <= 0xffff,
                self@ == m.moved(n, current),
            decreases left,
        {
            proof {
                engine::lemma_models_front(self.snd_queue@);
            }
            match self.snd_queue.pop_front() {
                Some(waiting) => {
                    let mut segment = waiting;
                    segment.header.conv = self.conv;
                    segment.header.cmd = constants::IKCP_CMD_PUSH;
                    segment.header.wnd = wnd;
                    segment.header.ts = current;
                    segment.header.sn = self.snd_nxt;
                    segment.header.una = self.rcv_nxt;
                    segment.resendts = current;
                    segment.rto = self.rtt.rto;
                    segment.fastack = 0;
                    segment.xmit = 0;
                    proof {
                        engine::lemma_models_push(self.snd_buf@, segment);
                        assert(m.snd_queue.skip(n)[0] == m.snd_queue[n]);
                        assert(segment@ =~= m.numbered(
                            m.snd_queue[n],
                            sequence::advanced(m.snd_nxt, n),
                            current,
                        ));
                        super::receiving::lemma_advanced_twice(m.snd_nxt, n, 1);
                    }
                    self.snd_buf.push_back(segment);
                    self.snd_nxt = self.snd_nxt.wrapping_add(1);
                    proof {
                        assert(m.snd_queue.skip(n).skip(1) =~= m.snd_queue.skip(n + 1));
                        assert(m.moved(n, current).snd_buf.push(segment@) =~= m.moved(
                            n + 1,
                            current,
                        ).snd_buf);
                        assert(self@ =~= m.moved(n + 1, current));
                        n = n + 1;
                    }
                },
                None => {},
            }
            left = left - 1;
        }
        proof {
            assert(self@.snd_queue.len() == m.snd_queue.len() - n);
            assert(n == m.movable());
            lemma_moved_wf(m, n, current);
        }
    }
}

/// The waiting segments carry what their headers say.
pub open spec fn sendable_queue(m: EngineModel) -> bool {
    engine::sendable(m.snd_queue, m.mss())
}

/// Fragments carry what their headers say.
pub proof fn lemma_fragments_sendable(
    queue: Seq<SegmentModel>,
    conv: u32,
    pieces: Seq<Seq<u8>>,
    stream: bool,
    mss: int,
)
    requires
        engine::sendable(queue, mss),
        0 < mss <= u32::MAX,
        forall|k: int| 0 <= k < pieces.len() ==> 0 < (#[trigger] pieces[k]).len() <= mss,
    ensures
        engine::sendable(queue + fragments(conv, pieces, stream), mss),
{
    let all = queue + fragments(conv, pieces, stream);
    assert forall|i: int| 0 <= i < all.len() implies (#[trigger] all[i]).len_matches()
        && all[i].data.len() <= mss by {
        if i >= queue.len() {
            let k = i - queue.len();
            assert(all[i] == fragments(conv, pieces, stream)[k]);
            assert(pieces[k].len() <= mss);
        }
    }
}

/// Numbering segments within the window keeps the send side in order.
pub proof fn lemma_moved_wf(m: EngineModel, n: int, now: u32)
    requires
        m.wf(),
        0 <= n <= m.snd_queue.len(),
        m.inflight() + n <= 0xffff,
    ensures
        m.moved(n, now).wf(),
{
    let after = m.moved(n, now);
    let una = m.snd_una;
    let f = m.inflight();
    assert(after.inflight() == f + n) by {
        super::receiving::lemma_advanced_twice(una, f, n);
        sequence::law_advanced_by_distance(una, m.snd_nxt);
        sequence::law_distance_of_advanced(una, f + n);
    }
    assert forall|i: int| 0 <= i < n implies sequence::distance(
        una,
        (#[trigger] after.snd_buf[m.snd_buf.len() + i]).header.sn,
    ) == f + i by {
        super::receiving::lemma_advanced_twice(una, f, i);
        sequence::law_advanced_by_distance(una, m.snd_nxt);
        sequence::law_distance_of_advanced(una, f + i);
    }
    assert forall|i: int| 0 <= i < after.snd_buf.len() implies ({
        let d = sequence::distance(una, (#[trigger] after.snd_buf[i]).header.sn);
        &&& d < f + n
        &&& i < m.snd_buf.len() ==> after.snd_buf[i] == m.snd_buf[i] && d < f
        &&& i >= m.snd_buf.len() ==> d == f + (i - m.snd_buf.len())
    }) by {
        if i >= m.snd_buf.len() {
            let k = i - m.snd_buf.len();
            assert(after.snd_buf[m.snd_buf.len() + k] == after.snd_buf[i]);
        }
    }
    assert(engine::sendable(after.snd_buf, after.mss())) by {
        assert forall|i: int| 0 <= i < after.snd_buf.len() implies (
        #[trigger] after.snd_buf[i]).len_matches() && after.snd_buf[i].data.len() <= after.mss() by {
            if i >= m.snd_buf.len() {
                assert(m.snd_queue[i - m.snd_buf.len()].len_matches());
            } else {
                assert(m.snd_buf[i].len_matches());
            }
        }
    }
    assert(engine::sendable(after.snd_queue, after.mss())) by {
        assert forall|i: int| 0 <= i < after.snd_queue.len() implies (
        #[trigger] after.snd_queue[i]).len_matches() && after.snd_queue[i].data.len()
            <= after.mss() by {
            assert(m.snd_queue[i + n].len_matches());
        }
    }
}

} // verus!
