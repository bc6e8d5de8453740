//! How messages are cut into segments, how much is accepted, and when a message is handed out.
use super::EngineModel;
use crate::engine::receiving;
use crate::engine::sending;
use crate::protocol::SegmentModel;
use vstd::prelude::*;

verus! {

/// All segments but the last are full.
pub open spec fn filled(queue: Seq<SegmentModel>, mss: int) -> bool {
    forall|i: int| 0 <= i < queue.len() - 1 ==> (#[trigger] queue[i]).data.len() == mss
}

/// All pieces but the last are full, and the last is not empty.
proof fn lemma_chunks_full(data: Seq<u8>, mss: int, i: int)
    requires
        mss > 0,
        0 <= i < sending::chunks(data, mss).len(),
    ensures
        i < sending::chunks(data, mss).len() - 1 ==> sending::chunks(data, mss)[i].len() == mss,
        sending::chunks(data, mss)[i].len() > 0,
        sending::chunks(data, mss)[i] == data.subrange(
            i * mss,
            i * mss + sending::chunks(data, mss)[i].len(),
        ),
        i * mss + sending::chunks(data, mss)[i].len() <= data.len(),
        i == sending::chunks(data, mss).len() - 1 ==> i * mss + sending::chunks(
            data,
            mss,
        )[i].len() == data.len(),
    decreases data.len(),
{
    let all = sending::chunks(data, mss);
    if data.len() <= mss {
        assert(i == 0);
        assert(all[0] =~= data.subrange(0, data.len() as int));
    } else {
        let rest = sending::chunks(data.skip(mss), mss);
        assert(all == seq![data.take(mss)] + rest);
        sending::lemma_chunks(data.skip(mss), mss);
        if i == 0 {
            assert(all[0] =~= data.subrange(0, mss));
            assert(rest.len() > 0) by {
                if rest.len() == 0 {
                    assert(data.skip(mss).len() == 0);
                }
            }
        } else {
            lemma_chunks_full(data.skip(mss), mss, i - 1);
            assert(all[i] == rest[i - 1]);
            assert((i - 1) * mss + mss == i * mss) by (nonlinear_arith);
            assert(all[i] =~= data.subrange(i * mss, i * mss + all[i].len()));
        }
    }
}

/// A message is accepted exactly when it fits into as many full segments as the receive window
/// takes, and no more than 128.
pub proof fn law_accepted_sizes(m: EngineModel, len: int)
    requires
        m.wf(),
        len >= 0,
    ensures
        ({
            let mss = m.config.mtu - 24;
            m.accepts(len) <==> len <= mss * m.config.rcv_wnd && len <= mss * 128
        }),
{
    let mss = m.mss();
    let k = m.fragment_limit();
    assert((len + mss - 1) / mss <= k <==> len <= mss * k) by (nonlinear_arith)
        requires
            mss > 0,
    ;
    assert(mss * k <= mss * m.config.rcv_wnd && mss * k <= mss * 128) by (nonlinear_arith)
        requires
            mss > 0,
            k <= m.config.rcv_wnd,
            k <= 128,
    ;
    assert(k == m.config.rcv_wnd || k == 128);
    if len == 0 {
        assert(mss * k >= 0) by (nonlinear_arith)
            requires
                mss > 0,
                k >= 0,
        ;
    }
}

/// A message is cut into as few segments as hold it, all full but the last, each of which says how
/// many are still to come. They join what waits at its end.
pub proof fn law_messages_are_cut(m: EngineModel, data: Seq<u8>, i: int)
    requires
        m.wf(),
        !m.config.stream_mode,
        m.accepts(data.len() as int),
        0 <= i < m.queued(data).snd_queue.len() - m.snd_queue.len(),
    ensures
        ({
            let mss = m.config.mtu - 24;
            let after = m.queued(data).snd_queue;
            let n = after.len() - m.snd_queue.len();
            let seg = after[m.snd_queue.len() + i];
            &&& after.take(m.snd_queue.len() as int) == m.snd_queue
            &&& (n - 1) * mss < data.len() <= n * mss
            &&& seg.header.frg == n - 1 - i
            &&& seg.header.cmd == 81
            &&& seg.header.conv == m.conv
            &&& seg.header.len == seg.data.len()
            &&& i < n - 1 ==> seg.data.len() == mss
            &&& seg.data == data.subrange(i * mss, i * mss + seg.data.len())
            &&& i == n - 1 ==> i * mss + seg.data.len() == data.len()
        }),
{
    let mss = m.mss();
    let pieces = sending::chunks(data, mss);
    let n = pieces.len() as int;
    assert(data.skip(0) =~= data);
    let after = m.queued(data).snd_queue;
    assert(after == m.snd_queue + sending::fragments(m.conv, pieces, false));
    assert(after.take(m.snd_queue.len() as int) =~= m.snd_queue);
    sending::lemma_chunks(data, mss);
    lemma_chunks_full(data, mss, i);
    assert(data.len() > 0) by {
        if data.len() == 0 {
            assert(pieces.len() == 0);
        }
    }
    assert((n - 1) * mss < data.len() <= n * mss) by (nonlinear_arith)
        requires
            mss > 0,
            n == (data.len() + mss - 1) / mss,
    ;
    assert(after[m.snd_queue.len() + i] == sending::fragments(m.conv, pieces, false)[i]);
}

/// A message of no bytes queues nothing. Any other queues something, unless boundaries are not
/// kept and the last waiting segment takes it.
pub proof fn law_empty_messages_are_nothing(m: EngineModel, data: Seq<u8>)
    requires
        m.wf(),
    ensures
        data.len() == 0 ==> m.queued(data).snd_queue == m.snd_queue,
        data.len() > 0 && !m.config.stream_mode ==> m.queued(data).snd_queue.len()
            > m.snd_queue.len(),
        m.queued(data).stats.bytes_sent == (m.stats.bytes_sent + data.len())
            % 0x1_0000_0000_0000_0000,
        m.queued(data).snd_buf == m.snd_buf,
        m.queued(data).output == m.output,
{
    let mss = m.mss();
    if data.len() == 0 {
        let n = if m.config.stream_mode {
            sending::spare(m.snd_queue, 0, mss)
        } else {
            0
        };
        assert(n == 0);
        assert(data.skip(0) =~= data);
        assert(m.snd_queue + sending::fragments(
            m.conv,
            sending::chunks(data, mss),
            m.config.stream_mode,
        ) =~= m.snd_queue);
    } else if !m.config.stream_mode {
        assert(data.skip(0) =~= data);
    }
}

/// Where message boundaries are not kept, data fills segments: what waits stays full but for the
/// last segment, however small the writes are, and no segment announces another.
pub proof fn law_streams_are_filled(m: EngineModel, data: Seq<u8>)
    requires
        m.wf(),
        m.config.stream_mode,
        filled(m.snd_queue, m.config.mtu - 24),
    ensures
        filled(m.queued(data).snd_queue, m.config.mtu - 24),
        forall|i: int|
            m.snd_queue.len() <= i < m.queued(data).snd_queue.len() ==> (#[trigger] m.queued(
                data,
            ).snd_queue[i]).header.frg == 0 && m.queued(data).snd_queue[i].data.len() > 0,
        forall|i: int|
            0 <= i < m.snd_queue.len() - 1 ==> #[trigger] m.queued(data).snd_queue[i]
                == m.snd_queue[i],
        m.snd_queue.len() <= m.queued(data).snd_queue.len(),
        m.snd_queue.len() > 0 ==> m.queued(data).snd_queue[m.snd_queue.len() - 1].header.frg
            == m.snd_queue[m.snd_queue.len() - 1].header.frg,
        m.snd_queue.len() > 0 && m.queued(data).snd_queue.len() > m.snd_queue.len() ==> m.queued(
            data,
        ).snd_queue[m.snd_queue.len() - 1].data.len() == m.config.mtu - 24,
{
    let mss = m.mss();
    let n = sending::spare(m.snd_queue, data.len() as int, mss);
    let top = sending::topped_up(m.snd_queue, data, n);
    let pieces = sending::chunks(data.skip(n), mss);
    let more = sending::fragments(m.conv, pieces, true);
    let after = m.queued(data).snd_queue;
    assert(after == top + more);
    let k = m.snd_queue.len() as int;
    if k > 0 {
        assert(m.snd_queue[k - 1].data.len() <= mss);
    }
    if pieces.len() > 0 && k > 0 {
        assert(n < data.len()) by {
            if n == data.len() {
                assert(data.skip(n).len() == 0);
            }
        }
        assert(top[k - 1].data.len() == mss);
    }
    assert forall|i: int| 0 <= i < pieces.len() implies (#[trigger] pieces[i]).len() > 0 && (i
        < pieces.len() - 1 ==> pieces[i].len() == mss) by {
        lemma_chunks_full(data.skip(n), mss, i);
    }
    assert forall|i: int| 0 <= i < after.len() - 1 implies (#[trigger] after[i]).data.len()
        == mss by {
        if i < k - 1 {
            assert(after[i] == m.snd_queue[i]);
        } else if i == k - 1 {
            assert(after[i] == top[k - 1]);
        } else {
            assert(after[i] == more[i - k]);
            assert(pieces[i - k].len() == mss);
        }
    }
    assert forall|i: int| k <= i < after.len() implies (#[trigger] after[i]).header.frg == 0
        && after[i].data.len() > 0 by {
        assert(after[i] == more[i - k]);
        assert(pieces[i - k].len() > 0);
    }
}

/// No message is handed out before all its segments are there: the first one says how many follow
/// it.
pub proof fn law_incomplete_messages_wait(m: EngineModel)
    requires
        m.rcv_queue.len() == 0 || m.rcv_queue.len() <= m.rcv_queue[0].header.frg,
    ensures
        !m.has_message(),
{
}

/// How long the first message is.
proof fn lemma_message_len_is(queue: Seq<SegmentModel>, n: int)
    requires
        0 < n <= queue.len(),
        forall|i: int| 0 <= i < n - 1 ==> (#[trigger] queue[i]).header.frg != 0,
        queue[n - 1].header.frg == 0,
    ensures
        receiving::message_len(queue) == n,
    decreases n,
{
    if n > 1 {
        assert(queue[0].header.frg != 0);
        let rest = queue.skip(1);
        assert forall|i: int| 0 <= i < n - 2 implies (#[trigger] rest[i]).header.frg != 0 by {
            assert(queue[i + 1].header.frg != 0);
        }
        lemma_message_len_is(rest, n - 1);
    }
}

/// A message that is handed out ends with the first segment that announces no other, and leaves
/// the queue whole: the rest stays, in order, and what came early follows. Its bytes are counted.
pub proof fn law_taking_takes_one_message(m: EngineModel, n: int)
    requires
        m.wf(),
        0 < n <= m.rcv_queue.len(),
        forall|i: int| 0 <= i < n - 1 ==> (#[trigger] m.rcv_queue[i]).header.frg != 0,
        m.rcv_queue[n - 1].header.frg == 0,
    ensures
        ({
            let after = m.received();
            let kept = m.rcv_queue.len() - n;
            &&& m.first_message() == receiving::joined(m.rcv_queue.take(n))
            &&& after.rcv_queue.len() >= kept
            &&& after.rcv_queue.take(kept) == m.rcv_queue.skip(n)
            &&& after.rcv_queue.len() + after.rcv_buf.len() == kept + m.rcv_buf.len()
            &&& after.stats.bytes_received == (m.stats.bytes_received + m.first_message().len())
                % 0x1_0000_0000_0000_0000
            &&& after.ack_list == m.ack_list
            &&& after.snd_buf == m.snd_buf
            &&& after.snd_queue == m.snd_queue
            &&& after.output == m.output
        }),
{
    lemma_message_len_is(m.rcv_queue, n);
    let after = m.received();
    let kept = m.rcv_queue.len() - n;
    let rest = m.rcv_queue.skip(n);
    let r = receiving::run_len(m.rcv_buf, m.rcv_nxt, m.wnd.rcv - kept) as int;
    receiving::lemma_run_len(m.rcv_buf, m.rcv_nxt, m.wnd.rcv - kept);
    assert(after.rcv_queue == rest + m.rcv_buf.take(r));
    assert(after.rcv_queue.take(kept) =~= rest);
}

/// A message is handed out as soon as all its segments are there, unless it holds nothing or more
/// than a buffer takes.
pub proof fn law_complete_messages_are_handed_out(m: EngineModel, n: int)
    requires
        0 < n <= m.rcv_queue.len(),
        forall|i: int| 0 <= i < n ==> (#[trigger] m.rcv_queue[i]).header.frg == n - 1 - i,
    ensures
        ({
            let len = receiving::joined(m.rcv_queue.take(n)).len();
            m.has_message() <==> 0 < len <= 0x7fff_ffff && len <= usize::MAX / 4
        }),
        m.first_message() == receiving::joined(m.rcv_queue.take(n)),
{
    assert(m.rcv_queue[0].header.frg == n - 1);
    lemma_message_len_is(m.rcv_queue, n);
}

/// The data of segments is the data of each, one after the other.
pub proof fn law_data_is_joined_in_order(segs: Seq<SegmentModel>, last: SegmentModel)
    ensures
        receiving::joined(Seq::empty()).len() == 0,
        receiving::joined(segs.push(last)) == receiving::joined(segs) + last.data,
{
    assert(segs.push(last).drop_last() =~= segs);
}

} // verus!
