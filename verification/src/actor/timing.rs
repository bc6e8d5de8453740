//! How long the task sleeps, when it probes the peer or gives it up, and what it does with data.
use super::{ActorModel, Moment, TaskEvent};
use crate::actor;
use crate::config::LOSS_SCALE;
use crate::engine::input;
use crate::engine::schedule;
use crate::engine::EngineModel;
use vstd::prelude::*;

verus! {

/// The task sleeps until the engine has something to do, at least a millisecond, and no longer
/// than the keep-alive interval (a second without one) or the update interval, whichever is
/// longer.
pub proof fn law_sleep(m: ActorModel, now: u32, cap: int)
    requires
        m.settings.keep_alive_ms matches Some(ka) ==> cap >= ka && (cap == ka || cap
            == m.settings.update_interval_ms || cap == 1),
        m.settings.keep_alive_ms is None ==> cap >= 1000 && (cap == 1000 || cap
            == m.settings.update_interval_ms),
        cap >= m.settings.update_interval_ms,
        cap >= 1,
    ensures
        m.engine.next_deadline(now) == 0 ==> m.wait(now) == 1,
        1 <= m.engine.next_deadline(now) <= cap ==> m.wait(now) == m.engine.next_deadline(now),
        m.engine.next_deadline(now) > cap ==> m.wait(now) == cap,
{
}

/// A peer that has been silent for three keep-alive intervals is given up when the timer runs
/// out, no other peer is, and without a keep-alive interval none is.
pub proof fn law_silent_peer_is_given_up(m: ActorModel, at: Moment, ka: u64)
    requires
        m.settings.keep_alive_ms is None || m.settings.keep_alive_ms == Some(ka),
        !m.engine.gives_up(at.wall),
    ensures
        m.stops(TaskEvent::Timer(at)) <==> m.settings.keep_alive_ms is Some && (at.wall
            - m.engine.last_recv) % 0x1_0000_0000 >= 3 * ka,
{
    assert(m.flushed(at.wall).engine.last_recv == m.engine.last_recv);
}

/// A link that is given up ends the task, whichever event shows it, and the end of the data or of
/// a message does not.
pub proof fn law_lost_link_ends_the_task(m: ActorModel, at: Moment, packet: Seq<u8>)
    ensures
        m.engine.gives_up(at.wall) ==> m.stops(TaskEvent::Timer(at)),
        m.engine.gives_up(at.wall) <==> m.stops(TaskEvent::DataEnd(at)),
        m.engine.fed(packet, at.wall).gives_up(at.wall) <==> m.stops(
            TaskEvent::Packet(packet, at),
        ),
        !m.stops(TaskEvent::WritersGone),
        !m.stops(TaskEvent::Taken),
{
}

/// When the timer runs out, a peer that has been silent for a keep-alive interval is asked for its
/// window, unless the last question is not as long ago. Otherwise there is only a flush.
pub proof fn law_silent_peer_is_asked(m: ActorModel, at: Moment, ka: u64)
    requires
        m.wf(),
        m.engine.flushed(at.wall).wf(),
        m.settings.keep_alive_ms is None || m.settings.keep_alive_ms == Some(ka),
    ensures
        ({
            let silence = (at.wall - m.engine.last_recv) % 0x1_0000_0000;
            let due = m.settings.keep_alive_ms is Some && silence >= ka && (at.instant
                - m.last_probe >= ka || ka == 0);
            let flushed = m.engine.flushed(at.wall);
            let after = m.on_timer(at);
            &&& due ==> after.last_probe == at.instant && after.engine.output.len()
                == flushed.output.len() + 1 && input::parse_packet(
                after.engine.output.last(),
            ).len() == 1 && input::parse_packet(after.engine.output.last())[0].header.cmd == 83
            &&& due ==> after.engine.output.drop_last() == flushed.output
            &&& !due ==> after.last_probe == m.last_probe && after.engine == flushed
            &&& after.engine.snd_buf == flushed.snd_buf
            &&& after.engine.snd_queue == flushed.snd_queue
            &&& after.closing == m.closing && after.close_deadline == m.close_deadline
            &&& after.send_closed == m.send_closed && after.settings == m.settings
        }),
{
    let f = m.flushed(at.wall);
    assert(f.engine.last_recv == m.engine.last_recv);
    schedule::law_keep_alive_asks(f.engine, at.wall);
}

/// What comes in is taken in, and what that calls for goes out at once.
pub proof fn law_packets_are_answered_at_once(m: ActorModel, packet: Seq<u8>, at: Moment)
    ensures
        ({
            let fed = m.engine.fed(packet, at.wall);
            let after = m.met(TaskEvent::Packet(packet, at));
            &&& after.engine.output.len() == 0
            &&& after.engine.snd_buf == fed.flushed(at.wall).snd_buf
            &&& after.engine.rcv_queue == fed.rcv_queue
            &&& after.engine.rcv_buf == fed.rcv_buf
            &&& after.engine.rcv_nxt == fed.rcv_nxt
            &&& after.engine.ack_list.len() == 0
            &&& after.last_probe == m.last_probe
            &&& after.closing == m.closing
            &&& after.send_closed == m.send_closed
        }),
{
}

/// Data that the engine accepts joins what waits, and data that it refuses changes nothing.
pub proof fn law_data_is_handed_on(m: ActorModel, data: Seq<u8>)
    ensures
        m.engine.accepts(data.len() as int) ==> m.given(data) == (ActorModel {
            engine: m.engine.queued(data),
            ..m
        }),
        !m.engine.accepts(data.len() as int) ==> m.given(data) == m,
{
}

/// What is left when the task begins to close is handed on in order.
pub proof fn law_data_is_handed_on_in_order(m: ActorModel, left: Seq<Seq<u8>>, last: Seq<u8>)
    ensures
        m.given_all(Seq::empty()) == m,
        m.given_all(left.push(last)) == m.given_all(left).given(last),
{
    assert(left.push(last).drop_last() =~= left);
}

/// Handing on what is left changes only the engine.
proof fn lemma_given_all_keeps(m: ActorModel, left: Seq<Seq<u8>>)
    ensures
        m.given_all(left) == (ActorModel { engine: m.given_all(left).engine, ..m }),
    decreases left.len(),
{
    if left.len() > 0 {
        lemma_given_all_keeps(m, left.drop_last());
    }
}

/// Closing takes in what is left, flushes, takes nothing more, and lingers for ten seconds.
pub proof fn law_closing_lingers(m: ActorModel, left: Seq<Seq<u8>>, at: Moment)
    ensures
        ({
            let after = m.begun_closing(left, at);
            &&& after.closing
            &&& after.send_closed
            &&& after.close_deadline matches Some(d) && d <= at.instant + 10_000 && (d
                == at.instant + 10_000 || d == 0xffff_ffff_ffff_ffff)
            &&& after.engine == m.given_all(left).engine.flushed(at.wall)
            &&& after.settings == m.settings
            &&& after.last_probe == m.last_probe
        }),
{
    lemma_given_all_keeps(m, left);
}

/// Closing is over when everything has been sent and acknowledged, and at the deadline at the
/// latest; a task that is not closing goes on.
pub proof fn law_closing_is_over(m: ActorModel, at: Moment, deadline: u64)
    requires
        m.close_deadline == Some(deadline),
    ensures
        m.closed(at) <==> m.closing && (at.instant >= deadline || (m.engine.snd_queue.len() == 0
            && m.engine.snd_buf.len() == 0)),
{
}

/// A datagram is dropped when the upper 24 of its random bits lie below the threshold.
pub proof fn law_loss(threshold: u32, bits: u64)
    ensures
        actor::kept(Some(threshold), bits) <==> bits >= threshold * 0x100_0000_0000,
        actor::kept(None, bits),
{
}

/// What is left after losses is in order: one more datagram comes last or is dropped.
pub proof fn law_losses_keep_order(
    packets: Seq<Seq<u8>>,
    last: Seq<u8>,
    threshold: u32,
    draws: Seq<u64>,
)
    ensures
        ({
            let before = actor::thinned(packets, Some(threshold), draws);
            let after = actor::thinned(packets.push(last), Some(threshold), draws);
            let bits = draws[packets.len() as int];
            &&& bits >= threshold * 0x100_0000_0000 ==> after == before.push(last)
            &&& bits < threshold * 0x100_0000_0000 ==> after == before
        }),
        actor::thinned(Seq::empty(), Some(threshold), draws).len() == 0,
{
    assert(packets.push(last).drop_last() =~= packets);
    law_loss(threshold, draws[packets.len() as int]);
}

/// Without a threshold nothing is lost.
pub proof fn law_no_loss(packets: Seq<Seq<u8>>, draws: Seq<u64>)
    ensures
        actor::thinned(packets, None, draws) == packets,
    decreases packets.len(),
{
    if packets.len() > 0 {
        law_no_loss(packets.drop_last(), draws);
        assert(packets.drop_last().push(packets.last()) =~= packets);
    }
}

/// What each event does: the timer does what it does and hands out what there is to send, and so
/// does the end of a run of data, with a flush. When the writers are gone no more data comes. When
/// the application takes a message it leaves the engine.
pub proof fn law_events(m: ActorModel, at: Moment)
    ensures
        m.met(TaskEvent::Timer(at)).engine.output.len() == 0,
        m.met(TaskEvent::Timer(at)).engine.snd_buf == m.on_timer(at).engine.snd_buf,
        m.met(TaskEvent::Timer(at)).last_probe == m.on_timer(at).last_probe,
        m.met(TaskEvent::DataEnd(at)).engine.output.len() == 0,
        m.met(TaskEvent::DataEnd(at)).engine.snd_buf == m.engine.flushed(at.wall).snd_buf,
        m.met(TaskEvent::DataEnd(at)).engine.snd_queue == m.engine.flushed(at.wall).snd_queue,
        m.met(TaskEvent::WritersGone) == (ActorModel { send_closed: true, ..m }),
        m.engine.has_message() ==> m.met(TaskEvent::Taken) == (ActorModel {
            engine: m.engine.received(),
            ..m
        }),
        !m.engine.has_message() ==> m.met(TaskEvent::Taken) == m,
{
}

/// Handing out what there is to send takes nothing else from the engine.
pub proof fn law_handing_out(m: ActorModel)
    ensures
        m.drained().engine.output.len() == 0,
        m.drained() == (ActorModel {
            engine: EngineModel { output: Seq::empty(), ..m.engine },
            ..m
        }),
{
}

/// The scale of the loss threshold: none of it loses nothing, all of it loses everything, and a
/// higher threshold never keeps what a lower one drops.
pub proof fn law_loss_scale(low: u32, high: u32, bits: u64)
    requires
        low <= high,
    ensures
        actor::kept(Some(0), bits),
        !actor::kept(Some(LOSS_SCALE), bits),
        actor::kept(Some((LOSS_SCALE - 1) as u32), 0xffff_ffff_ffff_ffff),
        actor::kept(Some(high), bits) ==> actor::kept(Some(low), bits),
{
}

} // verus!
