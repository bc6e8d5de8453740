//! What connections do with data and time, and how they are found, kept and let go.
use super::{ConnectionModel, ConnectionState, ManagerModel, SlotModel};
use crate::actor::Moment;
use crate::config::{KcpConfig, KcpCoreConfig};
use crate::connection;
use crate::engine::input;
use crate::engine::EngineModel;
use crate::error::{ConnectionError, KcpError};
use crate::protocol::{ConvId, SegmentModel};
use vstd::prelude::*;

verus! {

/// A new connection is being established, has its own engine, and counts as active now.
pub proof fn law_new_connection(conv: ConvId, peer: u64, config: KcpCoreConfig, at: Moment)
    ensures
        ({
            let c = ConnectionModel::fresh(conv, peer, config, at);
            &&& c.conv == conv && c.peer == peer
            &&& c.engine == EngineModel::fresh(conv, config, at.wall)
            &&& c.state == ConnectionState::Connecting
            &&& c.created_at == at.instant && c.last_activity == at.instant
            &&& c.info().conv == conv && c.info().peer == peer && c.info().created_at == at.instant
        }),
{
}

/// Only a connected connection sends, and only what its engine accepts. What it sends goes out at
/// once and counts as activity, unless the link is given up over it.
pub proof fn law_sending(c: ConnectionModel, data: Seq<u8>, at: Moment, e: KcpError)
    ensures
        ({
            let connected = c.state == ConnectionState::Connected;
            let accepted = c.engine.accepts(data.len() as int);
            let lost = data.len() > 0 && c.engine.queued(data).gives_up(at.wall);
            let after = c.sent(data, at);
            &&& c.sends(data, at) <==> connected && accepted && !lost
            &&& !connected || !accepted ==> after == c
            &&& connected && accepted && data.len() > 0 ==> after.engine == c.engine.queued(
                data,
            ).flushed(at.wall)
            &&& connected && accepted && data.len() == 0 ==> after.engine == c.engine.queued(data)
            &&& c.sends(data, at) ==> after.last_activity == at.instant
            &&& !c.sends(data, at) ==> after.last_activity == c.last_activity
            &&& after.state == c.state && after.peer == c.peer && after.conv == c.conv
            &&& after.stats == c.stats && after.created_at == c.created_at
            &&& !connected && c.refusal(data, e) ==> e == (KcpError::Connection {
                kind: ConnectionError::NotConnected,
            })
            &&& connected && accepted && c.refusal(data, e) ==> e == (KcpError::Connection {
                kind: ConnectionError::Lost,
            })
            &&& connected && !accepted && c.refusal(data, e) ==> e.is_buffer(
                "Message too large for window"@,
            )
        }),
{
}

/// A message that is received counts as activity; asking for one that is not there does not.
pub proof fn law_receiving(c: ConnectionModel, at: Moment)
    ensures
        c.engine.has_message() ==> c.received(at) == (ConnectionModel {
            engine: c.engine.received(),
            last_activity: at.instant,
            ..c
        }),
        !c.engine.has_message() ==> c.received(at) == c,
{
}

/// Segments are taken in exactly when all are of the conversation.
proof fn lemma_foreign(m: EngineModel, segs: Seq<SegmentModel>, newest: Option<u32>, now: u32)
    ensures
        !input::digest(m, segs, newest, now).foreign <==> forall|j: int|
            0 <= j < segs.len() ==> (#[trigger] segs[j]).header.conv == m.conv,
    decreases segs.len(),
{
    if segs.len() > 0 {
        if segs[0].header.conv == m.conv {
            let rest = segs.skip(1);
            let next = m.absorbed(segs[0], now);
            assert(next.conv == m.conv);
            lemma_foreign(next, rest, input::newest_ack(newest, segs[0].header), now);
            if forall|j: int| 0 <= j < rest.len() ==> (#[trigger] rest[j]).header.conv == m.conv {
                assert forall|j: int| 0 <= j < segs.len() implies (
                #[trigger] segs[j]).header.conv == m.conv by {
                    if j > 0 {
                        assert(rest[j - 1].header.conv == m.conv);
                    }
                }
            } else {
                let j = choose|j: int|
                    0 <= j < rest.len() && (#[trigger] rest[j]).header.conv != m.conv;
                assert(segs[j + 1].header.conv != m.conv);
            }
        }
    }
}

/// A packet is taken in when it can hold a segment and all its segments are of the conversation,
/// and only then counts as activity.
pub proof fn law_feeding(c: ConnectionModel, packet: Seq<u8>, at: Moment, e: KcpError)
    ensures
        packet.len() < 24 && ConnectionModel::complaint(packet, e) ==> e.is_protocol(
            "Packet too small"@,
        ),
        packet.len() >= 24 && ConnectionModel::complaint(packet, e) ==> e.is_protocol(
            "Invalid conversation ID"@,
        ),
        ({
            let segs = input::parse_packet(packet);
            let own = packet.len() >= 24 && forall|j: int|
                0 <= j < segs.len() ==> (#[trigger] segs[j]).header.conv == c.engine.conv;
            let after = c.fed(packet, at);
            &&& c.takes(packet, at) <==> own
            &&& own ==> after.last_activity == at.instant
            &&& !own ==> after.last_activity == c.last_activity
            &&& after.engine == c.engine.fed(packet, at.wall)
            &&& after.state == c.state && after.peer == c.peer && after.conv == c.conv
        }),
{
    lemma_foreign(c.engine, input::parse_packet(packet), None, at.wall);
}

/// An update that finds the link dead fails the connection; any other shows the engine's
/// statistics. One in which the engine gives up is reported, and changes the state with the next.
pub proof fn law_updating(c: ConnectionModel, at: Moment)
    ensures
        ({
            let e = c.engine.updated(at.wall);
            let after = c.updated(at);
            let dead = e.xmit_count >= 1 && e.xmit_count >= e.config.max_retries;
            &&& after.engine == e
            &&& !c.update_gives_up(at) && dead ==> after.state == ConnectionState::Failed
                && after.stats == c.stats && c.update_fails(at)
            &&& !c.update_gives_up(at) && !dead ==> after.state == c.state && after.stats
                == e.stats && !c.update_fails(at)
            &&& c.update_gives_up(at) ==> after.state == c.state && after.stats == c.stats
                && c.update_fails(at)
            &&& after.last_activity == c.last_activity && after.created_at == c.created_at
            &&& after.peer == c.peer && after.conv == c.conv
        }),
{
}

/// Closing sends what is left, and ends in the state that says whether it could.
pub proof fn law_closing(c: ConnectionModel, at: Moment)
    ensures
        c.closed(at).engine == c.engine.flushed(at.wall),
        c.engine.gives_up(at.wall) ==> c.closed(at).state == ConnectionState::Closing,
        !c.engine.gives_up(at.wall) ==> c.closed(at).state == ConnectionState::Closed,
        c.closed(at).last_activity == c.last_activity,
        c.closed(at).peer == c.peer,
        c.closed(at).conv == c.conv,
{
}

/// A connection is idle when its last activity is longer ago than the timeout, and may be cleaned
/// up when it is idle, closed or failed.
pub proof fn law_idleness(c: ConnectionModel, now: u64, timeout: u64)
    ensures
        c.idle(now, timeout) <==> now > c.last_activity + timeout,
        c.stale(now, timeout) <==> now > c.last_activity + timeout || c.state
            == ConnectionState::Closed || c.state == ConnectionState::Failed,
{
}

/// A new manager has no connections, and lets them be idle for the keep-alive interval, or five
/// minutes without one.
pub proof fn law_new_manager(config: KcpConfig)
    ensures
        ({
            let m = ManagerModel::fresh(config);
            &&& m.slots.len() == 0
            &&& m.addr_to_conv == Map::<u64, u32>::empty()
            &&& m.config == config.protocol_part()
            &&& config.keep_alive matches Some(ms) ==> m.idle_timeout == ms
            &&& config.keep_alive is None ==> m.idle_timeout == 300_000
        }),
{
}

/// The first listed connection of a conversation is found, if there is one.
pub proof fn law_first_of_a_conversation(slots: Seq<SlotModel>, conv: ConvId)
    ensures
        ({
            let p = connection::place(slots, conv) as int;
            &&& p <= slots.len()
            &&& p < slots.len() ==> slots[p].listed && slots[p].connection.conv == conv
            &&& forall|i: int|
                0 <= i < p ==> !((#[trigger] slots[i]).listed && slots[i].connection.conv == conv)
        }),
    decreases slots.len(),
{
    if slots.len() > 0 && !(slots[0].listed && slots[0].connection.conv == conv) {
        let rest = slots.skip(1);
        law_first_of_a_conversation(rest, conv);
        let p = connection::place(slots, conv) as int;
        assert forall|i: int| 0 <= i < p implies !((#[trigger] slots[i]).listed
            && slots[i].connection.conv == conv) by {
            if i > 0 {
                assert(rest[i - 1] == slots[i]);
            }
        }
    }
}

/// The first connection with a link is found, if there is one.
pub proof fn law_first_with_a_link(slots: Seq<SlotModel>, link: u64)
    ensures
        ({
            let p = connection::spot(slots, link) as int;
            &&& p <= slots.len()
            &&& p < slots.len() ==> slots[p].link == link
            &&& forall|i: int| 0 <= i < p ==> (#[trigger] slots[i]).link != link
        }),
    decreases slots.len(),
{
    if slots.len() > 0 && slots[0].link != link {
        let rest = slots.skip(1);
        law_first_with_a_link(rest, link);
        let p = connection::spot(slots, link) as int;
        assert forall|i: int| 0 <= i < p implies (#[trigger] slots[i]).link != link by {
            if i > 0 {
                assert(rest[i - 1] == slots[i]);
            }
        }
    }
}

/// Connecting adds one connection behind the others, connected and listed. An earlier connection of
/// the conversation is no longer listed; nothing else changes in those that were there.
pub proof fn law_connecting(
    m: ManagerModel,
    peer: u64,
    conv: ConvId,
    link: u64,
    at: Moment,
    i: int,
)
    requires
        m.wf(),
        0 <= i < m.slots.len(),
    ensures
        ({
            let after = m.connected(peer, conv, link, at);
            let new = after.slots.last();
            &&& after.slots.len() == m.slots.len() + 1
            &&& new.link == link && new.listed
            &&& new.connection.peer == peer && new.connection.conv == conv
            &&& new.connection.state == ConnectionState::Connected
            &&& new.connection.engine == EngineModel::fresh(conv, m.config, at.wall)
            &&& after.slots[i].connection == m.slots[i].connection
            &&& after.slots[i].link == m.slots[i].link
            &&& after.slots[i].listed <==> m.slots[i].listed && m.slots[i].connection.conv != conv
            &&& after.addr_to_conv == m.addr_to_conv.insert(peer, conv)
        }),
{
    law_first_of_a_conversation(m.slots, conv);
    let p = connection::place(m.slots, conv) as int;
    if p < i && m.slots[i].listed && m.slots[i].connection.conv == conv {
        assert(m.slots[p].connection.conv != m.slots[i].connection.conv);
    }
}

/// Removing a conversation closes its connection, which is no longer listed, and its peer is no
/// longer reached. The other connections stay as they are.
pub proof fn law_removing(m: ManagerModel, conv: ConvId, at: Moment, i: int)
    requires
        m.wf(),
        m.has(conv),
        0 <= i < m.slots.len(),
    ensures
        ({
            let p = connection::place(m.slots, conv) as int;
            let after = m.removed(conv, at);
            &&& after.slots.len() == m.slots.len()
            &&& i != p ==> after.slots[i] == m.slots[i]
            &&& i == p ==> !after.slots[i].listed && after.slots[i].link == m.slots[i].link
            &&& i == p ==> after.slots[i].connection.engine.snd_buf
                == m.slots[i].connection.engine.flushed(at.wall).snd_buf
            &&& i == p ==> after.slots[i].connection.engine.output.len() == 0
            &&& i == p ==> after.slots[i].connection.state == ConnectionState::Closed
                || after.slots[i].connection.state == ConnectionState::Closing
            &&& !after.has(conv)
            &&& after.addr_to_conv == m.addr_to_conv.remove(m.slots[p].connection.peer)
        }),
{
    law_first_of_a_conversation(m.slots, conv);
    let p = connection::place(m.slots, conv) as int;
    let c = m.get(conv);
    let mid = m.changed(p, c.closed(at).drained());
    law_first_of_a_conversation(mid.slots, conv);
    let q = connection::place(mid.slots, conv) as int;
    assert(mid.slots[p].listed && mid.slots[p].connection.conv == conv);
    assert(q == p) by {
        if q < p {
            assert(mid.slots[q] == m.slots[q]);
        }
    }
    let after = m.removed(conv, at);
    law_first_of_a_conversation(after.slots, conv);
    let r = connection::place(after.slots, conv) as int;
    if r < after.slots.len() {
        assert(r != p);
        assert(after.slots[r] == m.slots[r]);
        if r < p {
            assert(!(m.slots[r].listed && m.slots[r].connection.conv == conv));
        } else {
            assert(m.slots[p].connection.conv != m.slots[r].connection.conv);
        }
    }
}

/// An update of all updates each listed connection, and reports those that fail in their order.
pub proof fn law_updating_all(m: ManagerModel, at: Moment, i: int, slots: Seq<SlotModel>, last: SlotModel)
    requires
        0 <= i < m.slots.len(),
    ensures
        m.updated(at).slots.len() == m.slots.len(),
        m.slots[i].listed ==> m.updated(at).slots[i] == (SlotModel {
            connection: m.slots[i].connection.updated(at),
            ..m.slots[i]
        }),
        !m.slots[i].listed ==> m.updated(at).slots[i] == m.slots[i],
        connection::failing(Seq::empty(), at).len() == 0,
        last.listed && last.connection.update_fails(at) ==> connection::failing(
            slots.push(last),
            at,
        ) == connection::failing(slots, at).push(last.connection.conv),
        !last.listed || !last.connection.update_fails(at) ==> connection::failing(
            slots.push(last),
            at,
        ) == connection::failing(slots, at),
{
    assert(slots.push(last).drop_last() =~= slots);
}

/// The listed connections are given in their order.
pub proof fn law_listing(slots: Seq<SlotModel>, last: SlotModel)
    ensures
        connection::listed(Seq::empty()).len() == 0,
        last.listed ==> connection::listed(slots.push(last)) == connection::listed(slots).push(
            last.connection,
        ),
        !last.listed ==> connection::listed(slots.push(last)) == connection::listed(slots),
{
    assert(slots.push(last).drop_last() =~= slots);
}

/// Cleaning up goes through the connections in order. A listed one that is idle, closed or failed
/// is closed and no longer listed, its peer is no longer reached, and what closing sends is handed
/// out. One that is not listed and whose link nobody uses is let go, with what it still had to
/// send. Any other stays as it is.
pub proof fn law_cleaning(
    slots: Seq<SlotModel>,
    last: SlotModel,
    peers: Map<u64, u32>,
    at: Moment,
    timeout: u64,
    links: Seq<u64>,
)
    ensures
        ({
            let all = slots.push(last);
            let c = last.connection;
            let old = last.listed && (at.instant > c.last_activity + timeout || c.state
                == ConnectionState::Closed || c.state == ConnectionState::Failed);
            let used = links.contains(last.link);
            let kept = connection::fit(slots, at, timeout, links);
            let reached = connection::fit_peers(peers, slots, at.instant, timeout);
            let left = connection::farewells(slots, at, timeout, links);
            let closed = SlotModel {
                listed: false,
                connection: c.closed(at).drained(),
                ..last
            };
            &&& connection::fit(all, at, timeout, links) == (if old && used {
                kept.push(closed)
            } else if old || (!last.listed && !used) {
                kept
            } else {
                kept.push(last)
            })
            &&& connection::fit_peers(peers, all, at.instant, timeout) == (if old {
                reached.remove(c.peer)
            } else {
                reached
            })
            &&& connection::farewells(all, at, timeout, links) == (if old {
                left.push((c.peer, c.closed(at).engine.output))
            } else if !last.listed && !used {
                left.push((c.peer, c.engine.output))
            } else {
                left
            })
            &&& connection::fit(Seq::empty(), at, timeout, links).len() == 0
            &&& connection::fit_peers(peers, Seq::empty(), at.instant, timeout) == peers
            &&& connection::farewells(Seq::empty(), at, timeout, links).len() == 0
        }),
{
    assert(slots.push(last).drop_last() =~= slots);
}

/// The time that has passed is the difference, and none where the clock has gone back.
pub proof fn law_time_passes(since: u64, now: u64)
    ensures
        now >= since ==> connection::elapsed(since, now) == now - since,
        now <= since ==> connection::elapsed(since, now) == 0,
{
}

/// A conversation is had when a listed connection has it, a link is in use when a connection has
/// it, and a peer is reached when its conversation is had.
pub proof fn law_finding(m: ManagerModel, conv: ConvId, link: u64, peer: u64)
    ensures
        m.has(conv) <==> exists|i: int|
            0 <= i < m.slots.len() && (#[trigger] m.slots[i]).listed && m.slots[i].connection.conv
                == conv,
        m.has(conv) ==> m.get(conv).conv == conv,
        m.uses(link) <==> exists|i: int|
            0 <= i < m.slots.len() && (#[trigger] m.slots[i]).link == link,
        m.reaches(peer) <==> m.addr_to_conv.dom().contains(peer) && m.has(m.addr_to_conv[peer]),
        m.may_link(link) ==> !m.uses(link),
        m.may_link(link) && !m.uses(m.next_link) ==> link == m.next_link,
{
    law_first_of_a_conversation(m.slots, conv);
    law_first_with_a_link(m.slots, link);
    let p = connection::place(m.slots, conv) as int;
    let q = connection::spot(m.slots, link) as int;
    if m.has(conv) {
        assert(m.slots[p].listed);
    }
    if m.uses(link) {
        assert(m.slots[q].link == link);
    }
}

/// A connection that is changed is the one with the link; its link and the others stay.
pub proof fn law_changing_one(m: ManagerModel, link: u64, c: ConnectionModel, at: Moment, i: int)
    requires
        m.wf(),
        m.uses(link),
        0 <= i < m.slots.len(),
    ensures
        ({
            let after = m.relinked(link, c);
            let closed = m.closed(link, at);
            &&& after.slots.len() == m.slots.len() && closed.slots.len() == m.slots.len()
            &&& m.slots[i].link != link ==> after.slots[i] == m.slots[i] && closed.slots[i]
                == m.slots[i]
            &&& m.slots[i].link == link ==> after.slots[i] == (SlotModel {
                connection: c,
                ..m.slots[i]
            })
            &&& m.slots[i].link == link ==> closed.slots[i] == (SlotModel {
                connection: m.slots[i].connection.closed(at),
                ..m.slots[i]
            })
            &&& after.addr_to_conv == m.addr_to_conv && closed.addr_to_conv == m.addr_to_conv
        }),
{
    law_first_with_a_link(m.slots, link);
    let p = connection::spot(m.slots, link) as int;
    if i > p {
        assert(m.slots[p].link != m.slots[i].link);
    }
}

/// Handing out what there is to send takes nothing else from the connections.
pub proof fn law_handing_out_all(m: ManagerModel, i: int)
    requires
        0 <= i < m.slots.len(),
    ensures
        m.drained().slots.len() == m.slots.len(),
        m.drained().slots[i] == (SlotModel {
            connection: ConnectionModel {
                engine: EngineModel {
                    output: Seq::empty(),
                    ..m.slots[i].connection.engine
                },
                ..m.slots[i].connection
            },
            ..m.slots[i]
        }),
{
}

/// An update gives the link up when the interval has passed and the flush that is then due does.
pub proof fn law_update_gives_up(c: ConnectionModel, at: Moment)
    ensures
        ({
            let interval = c.engine.config.nodelay.interval;
            let due = at.wall >= c.engine.last_update + interval || interval == 0;
            c.update_gives_up(at) <==> due && c.engine.gives_up(at.wall)
        }),
{
    let m = c.engine;
    let n = EngineModel { last_update: at.wall, ..m };
    assert(n.movable() == m.movable());
    assert(n.prepared(at.wall).snd_buf == m.prepared(at.wall).snd_buf);
    assert(n.pass(at.wall) == m.pass(at.wall));
}

} // verus!
