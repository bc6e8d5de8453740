//! How sessions are found, kept and ended.
use super::{SessionId, SessionModel, SessionsModel};
use crate::actor::Moment;
use crate::session;
use vstd::prelude::*;

verus! {

/// A session is idle when its last activity is longer ago than the timeout.
pub proof fn law_session_idleness(s: SessionModel, now: u64, timeout: u64)
    ensures
        s.idle(now, timeout) <==> now > s.last_activity + timeout,
{
}

/// The first session with a number is found, if there is one.
pub proof fn law_first_with_a_number(sessions: Seq<SessionModel>, id: SessionId)
    ensures
        ({
            let p = session::session_place(sessions, id) as int;
            &&& p <= sessions.len()
            &&& p < sessions.len() ==> sessions[p].id == id
            &&& forall|i: int| 0 <= i < p ==> (#[trigger] sessions[i]).id != id
        }),
    decreases sessions.len(),
{
    if sessions.len() > 0 && sessions[0].id != id {
        let rest = sessions.skip(1);
        law_first_with_a_number(rest, id);
        let p = session::session_place(sessions, id) as int;
        assert forall|i: int| 0 <= i < p implies (#[trigger] sessions[i]).id != id by {
            if i > 0 {
                assert(rest[i - 1] == sessions[i]);
            }
        }
    }
}

/// The value of a key is that of the first entry with the key.
pub proof fn law_first_with_a_key(entries: Seq<(Seq<char>, Seq<char>)>, key: Seq<char>)
    ensures
        ({
            let p = session::key_place(entries, key) as int;
            &&& p <= entries.len()
            &&& p < entries.len() ==> entries[p].0 == key && session::value_of(entries, key)
                == Some(entries[p].1)
            &&& p == entries.len() ==> session::value_of(entries, key) is None
            &&& forall|i: int| 0 <= i < p ==> (#[trigger] entries[i]).0 != key
        }),
    decreases entries.len(),
{
    if entries.len() > 0 && entries[0].0 != key {
        let rest = entries.skip(1);
        law_first_with_a_key(rest, key);
        let p = session::key_place(entries, key) as int;
        assert forall|i: int| 0 <= i < p implies (#[trigger] entries[i]).0 != key by {
            if i > 0 {
                assert(rest[i - 1] == entries[i]);
            }
        }
    }
}

/// A new key comes last, and a new value takes the old one's place.
pub proof fn law_entries_keep_their_place(
    entries: Seq<(Seq<char>, Seq<char>)>,
    key: Seq<char>,
    value: Seq<char>,
    i: int,
)
    requires
        0 <= i < entries.len(),
    ensures
        ({
            let after = session::with_value(entries, key, value);
            &&& after[i].0 == entries[i].0
            &&& entries[i].0 != key ==> after[i] == entries[i]
            &&& after.len() == entries.len() || (after.len() == entries.len() + 1 && after.last()
                == (key, value))
            &&& (exists|j: int| 0 <= j < entries.len() && (#[trigger] entries[j]).0 == key)
                ==> after.len() == entries.len()
        }),
{
    law_first_with_a_key(entries, key);
}

/// A session that is adopted is new, comes last, and has the peer of its connection and the number
/// that is due. Numbers are counted up from one session to the next.
pub proof fn law_adopting(m: SessionsModel, link: u64, now: u64)
    requires
        m.wf(),
        !m.has(m.next_session_id),
    ensures
        ({
            let after = m.adopted(link, now);
            let new = after.sessions.last();
            &&& after.sessions.len() == m.sessions.len() + 1
            &&& after.sessions.drop_last() == m.sessions
            &&& new.id == m.next_session_id
            &&& new.link == link
            &&& new.peer == m.connections.linked(link).peer
            &&& new.created_at == now && new.last_activity == now
            &&& new.metadata.len() == 0
            &&& after.next_session_id == (m.next_session_id + 1) % 0x1_0000_0000
            &&& after.addr_to_session == m.addr_to_session.insert(new.peer, new.id)
            &&& after.connections == m.connections
        }),
{
    assert(m.adopted(link, now).sessions.drop_last() =~= m.sessions);
}

/// The other sessions stay in order when one leaves.
pub proof fn law_leaving(m: SessionsModel, id: SessionId, i: int)
    requires
        m.wf(),
        0 <= i < m.sessions.len(),
    ensures
        m.others(id).contains(m.sessions[i]) <==> m.sessions[i].id != id,
        m.has(id) ==> m.others(id).len() == m.sessions.len() - 1,
        !m.has(id) ==> m.others(id) == m.sessions,
{
    law_first_with_a_number(m.sessions, id);
    let p = session::session_place(m.sessions, id) as int;
    if m.has(id) {
        let o = m.others(id);
        if i < p {
            assert(o[i] == m.sessions[i]);
        } else if i > p {
            assert(o[i - 1] == m.sessions[i]);
            assert(m.sessions[p].id != m.sessions[i].id);
        } else if o.contains(m.sessions[p]) {
            let j = choose|j: int| 0 <= j < o.len() && o[j] == m.sessions[p];
            if j < p {
                assert(o[j] == m.sessions[j]);
            } else {
                assert(o[j] == m.sessions[j + 1]);
                assert(m.sessions[p].id != m.sessions[j + 1].id);
            }
        }
    } else {
        assert(m.others(id)[i] == m.sessions[i]);
    }
}

/// Ending a session closes its connection, and its peer is no longer reached.
pub proof fn law_ending(m: SessionsModel, s: SessionModel, at: Moment)
    ensures
        m.ended(s, at).addr_to_session == m.addr_to_session.remove(s.peer),
        m.connections.uses(s.link) ==> m.ended(s, at).connections.slots.len()
            == m.connections.slots.len(),
        m.connections.uses(s.link) ==> m.ended(s, at).connections.slots[
            crate::connection::spot(m.connections.slots, s.link) as int
        ].connection == m.connections.linked(s.link).closed(at),
        !m.connections.uses(s.link) ==> m.ended(s, at).connections == m.connections,
        m.ended(s, at).sessions == m.sessions,
{
}

/// Cleaning up goes through the sessions in order: one that is idle is ended and leaves, any other
/// stays.
pub proof fn law_cleaning_up(
    m: SessionsModel,
    sessions: Seq<SessionModel>,
    last: SessionModel,
    at: Moment,
)
    ensures
        ({
            let all = sessions.push(last);
            let timeout = m.session_timeout;
            let idle = at.instant > last.last_activity + timeout;
            let kept = session::busy(sessions, at.instant, timeout);
            &&& idle ==> session::busy(all, at.instant, timeout) == kept
            &&& !idle ==> session::busy(all, at.instant, timeout) == kept.push(last)
            &&& idle ==> m.idle_ended(all, at) == m.idle_ended(sessions, at).ended(last, at)
            &&& !idle ==> m.idle_ended(all, at) == m.idle_ended(sessions, at)
            &&& session::busy(Seq::empty(), at.instant, timeout).len() == 0
            &&& m.idle_ended(Seq::empty(), at) == m
            &&& m.cleaned(at).sessions == session::busy(m.sessions, at.instant, timeout)
            &&& m.cleaned(at).connections == m.idle_ended(m.sessions, at).connections
            &&& m.cleaned(at).addr_to_session == m.idle_ended(m.sessions, at).addr_to_session
        }),
{
    assert(sessions.push(last).drop_last() =~= sessions);
}

} // verus!
