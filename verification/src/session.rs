//! Session management and multiplexing.
//!
//! A session is a logical connection to a peer; its data goes through a connection of the
//! [`ConnectionManager`], which the session knows by its link and keeps as long as it stands.
//! Peers are known by numbers.
use crate::actor::Moment;
use crate::buffers;
use crate::config::KcpConfig;
use crate::connection;
use crate::connection::{
    ConnectionManager, ConnectionModel, KcpConnection, ManagerModel, Outgoing, DEFAULT_IDLE_MS,
};
use crate::error::{ConnectionError, KcpError, KcpResult};
use crate::protocol::ConvId;
use bytes::Bytes;
use std::collections::{HashMap, VecDeque};
use vstd::prelude::*;

pub mod keeping;

verus! {

/// Session identifier type.
pub type SessionId = u32;

/// `rand::random` for `u32`: a random number.
#[verifier::external_body]
fn random_number() -> (r: u32) {
    rand::random::<u32>()
}

/// Generate a new conversation ID. It is drawn at random, so nothing is stated of it.
pub fn generate_conversation_id() -> (r: ConvId) {
    random_number()
}

/// What a session's channel of incoming data has to give.
#[derive(Debug)]
pub enum ChannelEvent {
    /// Data
    Data(Bytes),
    /// Nothing at present
    Empty,
    /// Nothing any more
    Disconnected,
}

/// Session represents a logical connection that can span multiple KCP connections.
#[derive(Clone)]
pub struct Session {
    id: SessionId,
    peer: u64,
    link: u64,
    created_at: u64,
    last_activity: u64,
    metadata: Vec<(String, String)>,
}

/// What a session stands for.
#[verifier::ext_equal]
pub struct SessionModel {
    /// The session's own number
    pub id: SessionId,
    /// The peer
    pub peer: u64,
    /// The link of its connection
    pub link: u64,
    /// When it was made
    pub created_at: u64,
    /// When data last went through it
    pub last_activity: u64,
    /// Metadata: keys and values, in the order in which the keys were first set
    pub metadata: Seq<(Seq<char>, Seq<char>)>,
}

/// What metadata stands for.
pub open spec fn metadata_models(s: Seq<(String, String)>) -> Seq<(Seq<char>, Seq<char>)> {
    Seq::new(s.len(), |i: int| (s[i].0@, s[i].1@))
}

impl View for Session {
    type V = SessionModel;

    closed spec fn view(&self) -> SessionModel {
        SessionModel {
            id: self.id,
            peer: self.peer,
            link: self.link,
            created_at: self.created_at,
            last_activity: self.last_activity,
            metadata: metadata_models(self.metadata@),
        }
    }
}

/// Where a key stands; the number of keys if it is not there.
pub open spec fn key_place(entries: Seq<(Seq<char>, Seq<char>)>, key: Seq<char>) -> nat
    decreases entries.len(),
{
    if entries.len() == 0 {
        0
    } else if entries[0].0 == key {
        0
    } else {
        1 + key_place(entries.skip(1), key)
    }
}

/// The value of a key.
pub open spec fn value_of(entries: Seq<(Seq<char>, Seq<char>)>, key: Seq<char>) -> Option<
    Seq<char>,
> {
    let p = key_place(entries, key) as int;
    if p < entries.len() {
        Some(entries[p].1)
    } else {
        None
    }
}

/// The key has this value from now on.
pub open spec fn with_value(
    entries: Seq<(Seq<char>, Seq<char>)>,
    key: Seq<char>,
    value: Seq<char>,
) -> Seq<(Seq<char>, Seq<char>)> {
    let p = key_place(entries, key) as int;
    if p < entries.len() {
        entries.update(p, (key, value))
    } else {
        entries.push((key, value))
    }
}

/// A key stands at its place.
pub proof fn lemma_key_place(entries: Seq<(Seq<char>, Seq<char>)>, key: Seq<char>)
    ensures
        key_place(entries, key) <= entries.len(),
        key_place(entries, key) < entries.len() ==> entries[key_place(entries, key) as int].0
            == key,
        forall|i: int| 0 <= i < key_place(entries, key) ==> (#[trigger] entries[i]).0 != key,
    decreases entries.len(),
{
    if entries.len() > 0 && entries[0].0 != key {
        let rest = entries.skip(1);
        lemma_key_place(rest, key);
        assert forall|i: int| 0 <= i < key_place(entries, key) implies (
        #[trigger] entries[i]).0 != key by {
            if i > 0 {
                assert(rest[i - 1] == entries[i]);
            }
        }
    }
}

/// A place before which the key does not stand, and where it stands or where the keys end, is
/// its place.
proof fn lemma_key_place_is(entries: Seq<(Seq<char>, Seq<char>)>, key: Seq<char>, p: int)
    requires
        0 <= p <= entries.len(),
        p < entries.len() ==> entries[p].0 == key,
        forall|i: int| 0 <= i < p ==> (#[trigger] entries[i]).0 != key,
    ensures
        key_place(entries, key) == p,
{
    lemma_key_place(entries, key);
    let q = key_place(entries, key) as int;
    if q < p {
        assert(entries[q].0 != key);
    }
    if p < q {
        assert(entries[p].0 != key);
    }
}

/// A value that has been set is read back, and other keys keep theirs.
pub proof fn law_metadata_reads_back(
    entries: Seq<(Seq<char>, Seq<char>)>,
    key: Seq<char>,
    value: Seq<char>,
    other: Seq<char>,
)
    ensures
        value_of(with_value(entries, key, value), key) == Some(value),
        other != key ==> value_of(with_value(entries, key, value), other) == value_of(
            entries,
            other,
        ),
{
    let after = with_value(entries, key, value);
    let p = key_place(entries, key) as int;
    lemma_key_place(entries, key);
    assert forall|i: int| 0 <= i < p implies (#[trigger] after[i]).0 != key by {
        assert(entries[i].0 != key);
    }
    lemma_key_place_is(after, key, p);
    if other != key {
        let q = key_place(entries, other) as int;
        lemma_key_place(entries, other);
        assert forall|i: int| 0 <= i < q implies (#[trigger] after[i]).0 != other by {
            if i != p {
                assert(entries[i].0 != other);
            }
        }
        if q < entries.len() {
            assert(q != p);
            lemma_key_place_is(after, other, q);
        } else {
            let n = after.len() as int;
            assert forall|i: int| 0 <= i < n implies (#[trigger] after[i]).0 != other by {
                if i != p {
                    assert(entries[i].0 != other);
                }
            }
            lemma_key_place_is(after, other, n);
        }
    }
}

impl SessionModel {
    /// No data has gone through the session for longer than the timeout.
    pub open spec fn idle(self, now: u64, timeout: u64) -> bool {
        connection::elapsed(self.last_activity, now) > timeout
    }
}

impl Session {
    /// Create a new session.
    pub fn new(id: SessionId, peer: u64, link: u64, now: u64) -> (r: Self)
        ensures
            r@ == (SessionModel {
                id,
                peer,
                link,
                created_at: now,
                last_activity: now,
                metadata: Seq::empty(),
            }),
    {
        let r = Session {
            id,
            peer,
            link,
            created_at: now,
            last_activity: now,
            metadata: Vec::new(),
        };
        assert(r@.metadata =~= Seq::empty());
        r
    }

    /// Get session ID.
    pub fn id(&self) -> (r: SessionId)
        ensures
            r == self@.id,
    {
        self.id
    }

    /// Get peer address.
    pub fn peer_addr(&self) -> (r: u64)
        ensures
            r == self@.peer,
    {
        self.peer
    }

    /// Get the link of the session's connection.
    pub fn link(&self) -> (r: u64)
        ensures
            r == self@.link,
    {
        self.link
    }

    /// Data has gone through the session.
    pub fn update_activity(&mut self, now: u64)
        ensures
            final(self)@ == (SessionModel { last_activity: now, ..old(self)@ }),
    {
        self.last_activity = now;
    }

    /// Receive data from the session, given what its channel has to give.
    pub fn recv(&mut self, event: ChannelEvent, now: u64) -> (r: KcpResult<Option<Bytes>>)
        ensures
            (match event {
                ChannelEvent::Data(data) => r is Ok && r->Ok_0 == Some(data) && final(self)@ == (
                SessionModel { last_activity: now, ..old(self)@ }),
                ChannelEvent::Empty => r is Ok && r->Ok_0 is None && final(self)@ == old(self)@,
                ChannelEvent::Disconnected => r is Err && r->Err_0 == (KcpError::Connection {
                    kind: ConnectionError::Closed,
                }) && final(self)@ == old(self)@,
            }),
    {
        match event {
            ChannelEvent::Data(data) => {
                self.last_activity = now;
                Ok(Some(data))
            },
            ChannelEvent::Empty => Ok(None),
            ChannelEvent::Disconnected => Err(KcpError::connection(ConnectionError::Closed)),
        }
    }

    /// Where a key stands.
    fn find_key(&self, key: &String) -> (r: usize)
        ensures
            r == key_place(self@.metadata, key@),
            r <= self@.metadata.len(),
    {
        let mut i: usize = 0;
        let mut found = false;
        while i < self.metadata.len() && !found
            invariant
                i <= self.metadata@.len(),
                found ==> i < self.metadata@.len() && self@.metadata[i as int].0 == key@,
                forall|k: int| 0 <= k < i ==> (#[trigger] self@.metadata[k]).0 != key@,
            decreases self.metadata@.len() - i + (if found { 0int } else { 1int }),
        {
            assert(self@.metadata[i as int].0 == self.metadata@[i as int].0@);
            if self.metadata[i].0 == *key {
                found = true;
            } else {
                i = i + 1;
            }
        }
        proof {
            lemma_key_place_is(self@.metadata, key@, i as int);
        }
        i
    }

    /// Get session metadata.
    pub fn get_metadata(&self, key: &str) -> (r: Option<String>)
        ensures
            (match r {
                Some(value) => value_of(self@.metadata, key@) == Some(value@),
                None => value_of(self@.metadata, key@) is None,
            }),
    {
        let i: usize = self.find_key(&key.to_owned());
        if i < self.metadata.len() {
            Some(self.metadata[i].1.clone())
        } else {
            None
        }
    }

    /// Set session metadata.
    pub fn set_metadata(&mut self, key: String, value: String)
        ensures
            final(self)@ == (SessionModel {
                metadata: with_value(old(self)@.metadata, key@, value@),
                ..old(self)@
            }),
    {
        let ghost entries = self@.metadata;
        let ghost k = key@;
        let ghost v = value@;
        let i: usize = self.find_key(&key);
        let ghost before = self.metadata@;
        if i < self.metadata.len() {
            self.metadata.set(i, (key, value));
        } else {
            self.metadata.push((key, value));
        }
        assert(metadata_models(self.metadata@) =~= with_value(entries, k, v));
    }

    /// Get all metadata.
    pub fn metadata(&self) -> (r: Vec<(String, String)>)
        ensures
            metadata_models(r@) == self@.metadata,
    {
        let mut r: Vec<(String, String)> = Vec::new();
        let mut i: usize = 0;
        while i < self.metadata.len()
            invariant
                i <= self.metadata@.len(),
                r@.len() == i,
                forall|k: int|
                    0 <= k < i ==> (#[trigger] r@[k]).0@ == self.metadata@[k].0@ && r@[k].1@
                        == self.metadata@[k].1@,
            decreases self.metadata@.len() - i,
        {
            r.push((self.metadata[i].0.clone(), self.metadata[i].1.clone()));
            i = i + 1;
        }
        assert(metadata_models(r@) =~= self@.metadata);
        r
    }

    /// Check if session has been idle for too long.
    pub fn is_idle(&self, now: u64, timeout: u64) -> (r: bool)
        ensures
            r == self@.idle(now, timeout),
    {
        now >= self.last_activity && now - self.last_activity > timeout
    }

    /// Get session duration.
    pub fn duration(&self, now: u64) -> (r: u64)
        ensures
            r == connection::elapsed(self@.created_at, now),
    {
        if now < self.created_at {
            0
        } else {
            now - self.created_at
        }
    }
}

/// Session statistics.
#[derive(Debug, Clone, Copy, PartialEq, Eq, Structural)]
pub struct SessionStats {
    /// The session
    pub id: SessionId,
    /// The peer
    pub peer: u64,
    /// When it was made
    pub created_at: u64,
    /// How long ago that was
    pub duration: u64,
    /// Bytes sent
    pub bytes_sent: u64,
    /// Bytes received
    pub bytes_received: u64,
    /// When data last went through it
    pub last_activity: u64,
}

/// Session manager for handling multiple sessions.
pub struct SessionManager {
    connections: ConnectionManager,
    sessions: VecDeque<Session>,
    addr_to_session: HashMap<u64, u32>,
    next_session_id: SessionId,
    session_timeout: u64,
}

/// What a session manager stands for.
#[verifier::ext_equal]
pub struct SessionsModel {
    /// The connections
    pub connections: ManagerModel,
    /// The sessions, in the order in which they were made
    pub sessions: Seq<SessionModel>,
    /// The session of each peer
    pub addr_to_session: Map<u64, u32>,
    /// The number of the next session
    pub next_session_id: SessionId,
    /// How long a session may be idle
    pub session_timeout: u64,
}

/// What several sessions stand for.
pub open spec fn session_models(s: Seq<Session>) -> Seq<SessionModel> {
    Seq::new(s.len(), |i: int| s[i]@)
}

impl View for SessionManager {
    type V = SessionsModel;

    closed spec fn view(&self) -> SessionsModel {
        SessionsModel {
            connections: self.connections@,
            sessions: session_models(self.sessions@),
            addr_to_session: self.addr_to_session@,
            next_session_id: self.next_session_id,
            session_timeout: self.session_timeout,
        }
    }
}

/// Where the session stands; the number of sessions if it is not there.
pub open spec fn session_place(sessions: Seq<SessionModel>, id: SessionId) -> nat
    decreases sessions.len(),
{
    if sessions.len() == 0 {
        0
    } else if sessions[0].id == id {
        0
    } else {
        1 + session_place(sessions.skip(1), id)
    }
}

/// A session stands at its place.
pub proof fn lemma_session_place(sessions: Seq<SessionModel>, id: SessionId)
    ensures
        session_place(sessions, id) <= sessions.len(),
        session_place(sessions, id) < sessions.len() ==> sessions[session_place(
            sessions,
            id,
        ) as int].id == id,
        forall|i: int|
            0 <= i < session_place(sessions, id) ==> (#[trigger] sessions[i]).id != id,
    decreases sessions.len(),
{
    if sessions.len() > 0 && sessions[0].id != id {
        let rest = sessions.skip(1);
        lemma_session_place(rest, id);
        assert forall|i: int| 0 <= i < session_place(sessions, id) implies (
        #[trigger] sessions[i]).id != id by {
            if i > 0 {
                assert(rest[i - 1] == sessions[i]);
            }
        }
    }
}

/// A place before which the session does not stand, and where it stands or where the sessions
/// end, is its place.
proof fn lemma_session_place_is(sessions: Seq<SessionModel>, id: SessionId, p: int)
    requires
        0 <= p <= sessions.len(),
        p < sessions.len() ==> sessions[p].id == id,
        forall|i: int| 0 <= i < p ==> (#[trigger] sessions[i]).id != id,
    ensures
        session_place(sessions, id) == p,
{
    lemma_session_place(sessions, id);
    let q = session_place(sessions, id) as int;
    if q < p {
        assert(sessions[q].id != id);
    }
    if p < q {
        assert(sessions[p].id != id);
    }
}

/// The sessions that are kept by a cleanup.
pub open spec fn busy(sessions: Seq<SessionModel>, now: u64, timeout: u64) -> Seq<SessionModel>
    decreases sessions.len(),
{
    if sessions.len() == 0 {
        Seq::empty()
    } else {
        let front = busy(sessions.drop_last(), now, timeout);
        if sessions.last().idle(now, timeout) {
            front
        } else {
            front.push(sessions.last())
        }
    }
}

impl SessionsModel {
    /// What holds of every session manager. In particular each session has its connection.
    pub open spec fn wf(self) -> bool {
        &&& self.connections.wf()
        &&& one_each(self.sessions)
        &&& all_linked(self.sessions, self.connections)
    }

    /// There is a session with this number.
    pub open spec fn has(self, id: SessionId) -> bool {
        session_place(self.sessions, id) < self.sessions.len()
    }

    /// The session with this number.
    pub open spec fn get(self, id: SessionId) -> SessionModel {
        self.sessions[session_place(self.sessions, id) as int]
    }

    /// The connection of the session with this number.
    pub open spec fn connection_of(self, id: SessionId) -> ConnectionModel {
        self.connections.linked(self.get(id).link)
    }

    /// The sessions without the one of this number.
    pub open spec fn others(self, id: SessionId) -> Seq<SessionModel> {
        if self.has(id) {
            self.sessions.remove(session_place(self.sessions, id) as int)
        } else {
            self.sessions
        }
    }

    /// A session for a connection has been made, with the next number.
    pub open spec fn adopted(self, link: u64, now: u64) -> Self {
        let id = self.next_session_id;
        let peer = self.connections.linked(link).peer;
        SessionsModel {
            sessions: self.others(id).push(
                SessionModel {
                    id,
                    peer,
                    link,
                    created_at: now,
                    last_activity: now,
                    metadata: Seq::empty(),
                },
            ),
            addr_to_session: self.addr_to_session.insert(peer, id),
            next_session_id: ((id + 1) % 0x1_0000_0000) as u32,
            ..self
        }
    }

    /// A session with a new connection to the peer has been made.
    pub open spec fn connected(self, peer: u64, conv: ConvId, link: u64, at: Moment) -> Self {
        SessionsModel {
            connections: self.connections.connected(peer, conv, link, at),
            ..self
        }.adopted(link, at.instant)
    }

    /// The peer has a session.
    pub open spec fn reaches(self, peer: u64) -> bool {
        self.addr_to_session.dom().contains(peer) && self.has(self.addr_to_session[peer])
    }

    /// The session has ended: its peer has none any more, and its connection is closed.
    pub open spec fn ended(self, s: SessionModel, at: Moment) -> Self {
        SessionsModel {
            addr_to_session: self.addr_to_session.remove(s.peer),
            connections: self.connections.closed(s.link, at),
            ..self
        }
    }

    /// Those of the sessions that have been idle for too long have ended.
    pub open spec fn idle_ended(self, sessions: Seq<SessionModel>, at: Moment) -> Self
        decreases sessions.len(),
    {
        if sessions.len() == 0 {
            self
        } else {
            let m = self.idle_ended(sessions.drop_last(), at);
            if sessions.last().idle(at.instant, self.session_timeout) {
                m.ended(sessions.last(), at)
            } else {
                m
            }
        }
    }

    /// Connections of no more use have been removed, except that sessions keep theirs, and that
    /// those with these links are kept too.
    pub open spec fn connections_cleaned(self, at: Moment, others: Seq<u64>) -> Self {
        SessionsModel {
            connections: self.connections.cleaned(at, links_of(self.sessions) + others),
            ..self
        }
    }

    /// Sessions that have been idle for too long have been removed.
    pub open spec fn cleaned(self, at: Moment) -> Self {
        SessionsModel {
            sessions: busy(self.sessions, at.instant, self.session_timeout),
            ..self.idle_ended(self.sessions, at)
        }
    }
}

/// The links of the sessions' connections.
pub open spec fn links_of(sessions: Seq<SessionModel>) -> Seq<u64> {
    Seq::new(sessions.len(), |i: int| sessions[i].link)
}

/// Each session has its connection.
pub open spec fn all_linked(sessions: Seq<SessionModel>, connections: ManagerModel) -> bool {
    forall|i: int| 0 <= i < sessions.len() ==> connections.uses((#[trigger] sessions[i]).link)
}

/// No two sessions have the same number.
pub open spec fn one_each(sessions: Seq<SessionModel>) -> bool {
    forall|i: int, j: int|
        0 <= i < j < sessions.len() ==> (#[trigger] sessions[i]).id != (#[trigger] sessions[j]).id
}

/// Taking the first session out of a queue.
proof fn lemma_sessions_front(s: Seq<Session>)
    requires
        s.len() > 0,
    ensures
        session_models(s.subrange(1, s.len() as int)) == session_models(s).skip(1),
        session_models(s)[0] == s[0]@,
{
    assert(session_models(s.subrange(1, s.len() as int)) =~= session_models(s).skip(1));
}

/// A cleanup leaves each session once.
proof fn lemma_busy(sessions: Seq<SessionModel>, now: u64, timeout: u64)
    requires
        one_each(sessions),
    ensures
        one_each(busy(sessions, now, timeout)),
        forall|i: int|
            0 <= i < busy(sessions, now, timeout).len() ==> sessions.contains(
                #[trigger] busy(sessions, now, timeout)[i],
            ) && !busy(sessions, now, timeout)[i].idle(now, timeout),
    decreases sessions.len(),
{
    if sessions.len() > 0 {
        let front = sessions.drop_last();
        lemma_busy(front, now, timeout);
        let f = busy(front, now, timeout);
        let o = busy(sessions, now, timeout);
        let last = sessions[sessions.len() - 1];
        assert forall|i: int| 0 <= i < o.len() implies sessions.contains(#[trigger] o[i])
            && !o[i].idle(now, timeout) by {
            if i < f.len() {
                assert(o[i] == f[i]);
                let j = choose|j: int| 0 <= j < front.len() && front[j] == f[i];
                assert(sessions[j] == o[i]);
            } else {
                assert(o[i] == last);
            }
        }
        assert forall|i: int, j: int| 0 <= i < j < o.len() implies (#[trigger] o[i]).id != (
        #[trigger] o[j]).id by {
            assert(o[i] == f[i]);
            if j < f.len() {
                assert(o[j] == f[j]);
            } else {
                let k = choose|k: int| 0 <= k < front.len() && front[k] == f[i];
                assert(sessions[k] == f[i]);
                assert(o[j] == last);
            }
        }
    }
}

/// Without the session of a number, no session has the number, and each is there once.
proof fn lemma_others(m: SessionsModel, id: SessionId)
    requires
        one_each(m.sessions),
    ensures
        one_each(m.others(id)),
        forall|i: int| 0 <= i < m.others(id).len() ==> (#[trigger] m.others(id)[i]).id != id,
        all_linked(m.sessions, m.connections) ==> all_linked(m.others(id), m.connections),
{
    let p = session_place(m.sessions, id) as int;
    lemma_session_place(m.sessions, id);
    let o = m.others(id);
    if m.has(id) {
        assert forall|k: int| 0 <= k < o.len() implies (#[trigger] o[k]) == m.sessions[if k < p {
            k
        } else {
            k + 1
        }] by {}
        assert(m.sessions[p].id == id);
    }
}

impl SessionManager {
    /// What holds of every session manager.
    pub open spec fn wf(&self) -> bool {
        self@.wf()
    }

    /// Create a new session manager.
    pub fn new(config: &KcpConfig) -> (r: Self)
        requires
            config.mtu <= usize::MAX / 8,
        ensures
            r.wf(),
            r@ == (SessionsModel {
                connections: ManagerModel::fresh(*config),
                sessions: Seq::empty(),
                addr_to_session: Map::empty(),
                next_session_id: 1,
                session_timeout: match config.keep_alive {
                    Some(ms) => ms,
                    None => DEFAULT_IDLE_MS,
                },
            }),
    {
        let session_timeout: u64 = match config.keep_alive {
            Some(ms) => ms,
            None => DEFAULT_IDLE_MS,
        };
        let r = SessionManager {
            connections: ConnectionManager::new(config),
            sessions: VecDeque::new(),
            addr_to_session: HashMap::new(),
            next_session_id: 1,
            session_timeout,
        };
        assert(r@.sessions =~= Seq::empty());
        r
    }

    /// Where the session stands.
    fn find(&self, id: SessionId) -> (r: usize)
        ensures
            r == session_place(self@.sessions, id),
            r <= self@.sessions.len(),
    {
        let mut i: usize = 0;
        let mut found = false;
        while i < self.sessions.len() && !found
            invariant
                i <= self.sessions@.len(),
                found ==> i < self.sessions@.len() && self@.sessions[i as int].id == id,
                forall|k: int| 0 <= k < i ==> (#[trigger] self@.sessions[k]).id != id,
            decreases self.sessions@.len() - i + (if found { 0int } else { 1int }),
        {
            assert(self@.sessions[i as int] == self.sessions@[i as int]@);
            if self.sessions[i].id == id {
                found = true;
            } else {
                i = i + 1;
            }
        }
        proof {
            lemma_session_place_is(self@.sessions, id, i as int);
        }
        i
    }

    /// Takes the session out, if there is one.
    fn detach(&mut self, id: SessionId) -> (r: Option<Session>)
        ensures
            final(self)@ == (SessionsModel { sessions: old(self)@.others(id), ..old(self)@ }),
            r is Some <==> old(self)@.has(id),
            r matches Some(s) ==> s@ == old(self)@.get(id),
    {
        let ghost m = self@;
        let i: usize = self.find(id);
        if i < self.sessions.len() {
            let r = self.sessions.remove(i);
            assert(self@.sessions =~= m.sessions.remove(i as int));
            r
        } else {
            None
        }
    }

    /// Generate a new session ID.
    fn generate_session_id(&mut self) -> (r: SessionId)
        ensures
            r == old(self)@.next_session_id,
            final(self)@ == (SessionsModel {
                next_session_id: ((old(self)@.next_session_id + 1) % 0x1_0000_0000) as u32,
                ..old(self)@
            }),
    {
        let id: u32 = self.next_session_id;
        self.next_session_id = id.wrapping_add(1);
        id
    }

    /// Make a session for a connection that has been accepted, if there is one with this link.
    pub fn accept(&mut self, link: u64, now: u64) -> (r: Option<SessionId>)
        requires
            old(self).wf(),
        ensures
            final(self).wf(),
            r is Some <==> old(self)@.connections.uses(link),
            r is None ==> final(self)@ == old(self)@,
            r matches Some(id) ==> id == old(self)@.next_session_id && final(self)@ == old(
                self,
            )@.adopted(link, now),
    {
        let peer: u64 = match self.connections.linked_connection(link) {
            None => {
                return None;
            },
            Some(c) => c.info().peer,
        };
        let ghost m = self@;
        let id: u32 = self.generate_session_id();
        proof {
            lemma_others(m, id);
        }
        let _ = self.detach(id);
        let session = Session::new(id, peer, link, now);
        let ghost before = self@.sessions;
        self.sessions.push_back(session);
        proof {
            assert(before == m.others(id));
            assert(self@.sessions =~= before.push(session@));
            let after = self@.sessions;
            assert forall|i: int| 0 <= i < after.len() implies m.connections.uses(
                (#[trigger] after[i]).link,
            ) by {
                if i < before.len() {
                    assert(after[i] == before[i]);
                }
            }
        }
        self.addr_to_session.insert(peer, id);
        Some(id)
    }

    /// Create a new outgoing session over a connection with this conversation.
    pub fn connect_with(&mut self, peer: u64, conv: ConvId, at: Moment) -> (r: SessionId)
        requires
            old(self).wf(),
        ensures
            final(self).wf(),
            r == old(self)@.next_session_id,
            ({
                let link = final(self)@.get(r).link;
                &&& old(self)@.connections.may_link(link)
                &&& final(self)@ == old(self)@.connected(peer, conv, link, at)
            }),
    {
        let ghost m = self@;
        let link: u64 = self.connections.connect(peer, conv, at);
        proof {
            connection::law_connection_is_found(m.connections, peer, conv, link, at);
            lemma_connecting_keeps_links(m, peer, conv, link, at);
            law_session_is_found(self@, link, at.instant);
        }
        let id: u32 = self.next_session_id;
        let _ = self.accept(link, at.instant);
        id
    }

    /// Create a new outgoing session.
    pub fn connect(&mut self, peer: u64, at: Moment) -> (r: SessionId)
        requires
            old(self).wf(),
        ensures
            final(self).wf(),
            r == old(self)@.next_session_id,
            old(self)@.connections.may_link(final(self)@.get(r).link),
            exists|conv: ConvId|
                final(self)@ == #[trigger] old(self)@.connected(
                    peer,
                    conv,
                    final(self)@.get(r).link,
                    at,
                ),
    {
        let conv: u32 = generate_conversation_id();
        self.connect_with(peer, conv, at)
    }

    /// Get session by ID.
    pub fn get_session(&self, id: SessionId) -> (r: Option<&Session>)
        ensures
            r is Some <==> self@.has(id),
            r matches Some(s) ==> s@ == self@.get(id),
    {
        let i: usize = self.find(id);
        if i < self.sessions.len() {
            Some(&self.sessions[i])
        } else {
            None
        }
    }

    /// Get session by peer address.
    pub fn get_session_by_addr(&self, peer: u64) -> (r: Option<&Session>)
        ensures
            r is Some <==> self@.reaches(peer),
            r matches Some(s) ==> s@ == self@.get(self@.addr_to_session[peer]),
    {
        match self.addr_to_session.get(&peer) {
            None => None,
            Some(id) => self.get_session(*id),
        }
    }

    /// Get the connection of the session.
    pub fn connection_of(&self, id: SessionId) -> (r: Option<&KcpConnection>)
        requires
            self.wf(),
        ensures
            r is Some <==> self@.has(id),
            r matches Some(c) ==> c@ == self@.connection_of(id),
    {
        let i: usize = self.find(id);
        if i < self.sessions.len() {
            assert(self@.sessions[i as int] == self.sessions@[i as int]@);
            self.connections.linked_connection(self.sessions[i].link)
        } else {
            None
        }
    }

    /// Send data through the session.
    pub fn send(&mut self, id: SessionId, data: Bytes, at: Moment) -> (r: KcpResult<()>)
        requires
            old(self).wf(),
        ensures
            final(self).wf(),
            !old(self)@.has(id) ==> r is Err && r->Err_0 == (KcpError::Connection {
                kind: ConnectionError::NotConnected,
            }) && final(self)@ == old(self)@,
            old(self)@.has(id) ==> ({
                let s = old(self)@.get(id);
                let c = old(self)@.connection_of(id);
                let bytes = buffers::bytes_of(data);
                &&& (r is Ok <==> c.sends(bytes, at))
                &&& (r matches Err(e) ==> c.refusal(bytes, e))
                &&& final(self)@ == (SessionsModel {
                    connections: old(self)@.connections.relinked(s.link, c.sent(bytes, at)),
                    sessions: if c.sends(bytes, at) {
                        old(self)@.sessions.update(
                            session_place(old(self)@.sessions, id) as int,
                            SessionModel { last_activity: at.instant, ..s },
                        )
                    } else {
                        old(self)@.sessions
                    },
                    ..old(self)@
                })
            }),
    {
        let ghost m = self@;
        let i: usize = self.find(id);
        if i >= self.sessions.len() {
            return Err(KcpError::connection(ConnectionError::NotConnected));
        }
        assert(m.sessions[i as int] == self.sessions@[i as int]@);
        let link: u64 = self.sessions[i].link;
        let r = self.connections.send(link, data, at);
        proof {
            lemma_still_linked(m.sessions, m.connections, self@.connections);
        }
        match r {
            Err(e) => Err(e),
            Ok(()) => {
                if let Some(s) = self.sessions.remove(i) {
                    let mut session = s;
                    session.update_activity(at.instant);
                    self.sessions.insert(i, session);
                    assert(self@.sessions =~= m.sessions.update(i as int, session@));
                    assert forall|k: int| 0 <= k < self@.sessions.len() implies (
                    #[trigger] self@.sessions[k]).link == m.sessions[k].link && self@.sessions[k].id
                        == m.sessions[k].id by {}
                }
                Ok(())
            },
        }
    }

    /// Receive data from the session, given what its channel has to give.
    pub fn recv(&mut self, id: SessionId, event: ChannelEvent, now: u64) -> (r: KcpResult<
        Option<Bytes>,
    >)
        requires
            old(self).wf(),
        ensures
            final(self).wf(),
            !old(self)@.has(id) ==> r is Err && r->Err_0 == (KcpError::Connection {
                kind: ConnectionError::NotConnected,
            }) && final(self)@ == old(self)@,
            old(self)@.has(id) ==> (match event {
                ChannelEvent::Data(data) => r is Ok && r->Ok_0 == Some(data) && final(self)@ == (
                SessionsModel {
                    sessions: old(self)@.sessions.update(
                        session_place(old(self)@.sessions, id) as int,
                        SessionModel { last_activity: now, ..old(self)@.get(id) },
                    ),
                    ..old(self)@
                }),
                ChannelEvent::Empty => r is Ok && r->Ok_0 is None && final(self)@ == old(self)@,
                ChannelEvent::Disconnected => r is Err && r->Err_0 == (KcpError::Connection {
                    kind: ConnectionError::Closed,
                }) && final(self)@ == old(self)@,
            }),
    {
        let ghost m = self@;
        let i: usize = self.find(id);
        if i >= self.sessions.len() {
            return Err(KcpError::connection(ConnectionError::NotConnected));
        }
        assert(m.sessions[i as int] == self.sessions@[i as int]@);
        match self.sessions.remove(i) {
            None => Err(KcpError::connection(ConnectionError::NotConnected)),
            Some(s) => {
                let mut session = s;
                let r = session.recv(event, now);
                self.sessions.insert(i, session);
                proof {
                    assert(self@.sessions =~= m.sessions.update(i as int, session@));
                    assert(m.sessions.update(i as int, m.sessions[i as int]) =~= m.sessions);
                    assert forall|k: int| 0 <= k < self@.sessions.len() implies (
                    #[trigger] self@.sessions[k]).link == m.sessions[k].link && self@.sessions[k].id
                        == m.sessions[k].id by {}
                }
                r
            },
        }
    }

    /// Take the next message out of the session's connection, for the session's channel.
    pub fn take_message(&mut self, id: SessionId, at: Moment) -> (r: KcpResult<Option<Bytes>>)
        requires
            old(self).wf(),
        ensures
            final(self).wf(),
            !old(self)@.has(id) ==> r is Err && r->Err_0 == (KcpError::Connection {
                kind: ConnectionError::NotConnected,
            }) && final(self)@ == old(self)@,
            old(self)@.has(id) ==> ({
                let c = old(self)@.connection_of(id);
                &&& final(self)@ == (SessionsModel {
                    connections: old(self)@.connections.relinked(
                        old(self)@.get(id).link,
                        c.received(at),
                    ),
                    ..old(self)@
                })
                &&& r is Ok
                &&& (r->Ok_0 is Some <==> c.engine.has_message())
                &&& (r->Ok_0 matches Some(b) ==> buffers::bytes_of(b) == c.engine.first_message())
            }),
    {
        let ghost m = self@;
        let i: usize = self.find(id);
        if i >= self.sessions.len() {
            return Err(KcpError::connection(ConnectionError::NotConnected));
        }
        assert(m.sessions[i as int] == self.sessions@[i as int]@);
        let link: u64 = self.sessions[i].link;
        let r = self.connections.recv(link, at);
        proof {
            lemma_still_linked(m.sessions, m.connections, self@.connections);
        }
        r
    }

    /// Close the connection of the session. The session itself stands until it is removed.
    pub fn close_session(&mut self, id: SessionId, at: Moment) -> (r: KcpResult<()>)
        requires
            old(self).wf(),
        ensures
            final(self).wf(),
            !old(self)@.has(id) ==> r is Ok && final(self)@ == old(self)@,
            old(self)@.has(id) ==> ({
                &&& final(self)@ == (SessionsModel {
                    connections: old(self)@.connections.closed(old(self)@.get(id).link, at),
                    ..old(self)@
                })
                &&& (r is Err <==> old(self)@.connection_of(id).engine.gives_up(at.wall))
                &&& (r matches Err(e) ==> e == (KcpError::Connection {
                    kind: ConnectionError::Lost,
                }))
            }),
    {
        let ghost m = self@;
        let i: usize = self.find(id);
        if i >= self.sessions.len() {
            return Ok(());
        }
        assert(m.sessions[i as int] == self.sessions@[i as int]@);
        let link: u64 = self.sessions[i].link;
        let r = self.connections.close(link, at);
        proof {
            lemma_still_linked(m.sessions, m.connections, self@.connections);
        }
        r
    }

    /// Set metadata of the session, if there is one with this number.
    pub fn set_metadata(&mut self, id: SessionId, key: String, value: String) -> (r: bool)
        requires
            old(self).wf(),
        ensures
            final(self).wf(),
            r == old(self)@.has(id),
            !r ==> final(self)@ == old(self)@,
            r ==> ({
                let s = old(self)@.get(id);
                final(self)@ == (SessionsModel {
                    sessions: old(self)@.sessions.update(
                        session_place(old(self)@.sessions, id) as int,
                        SessionModel { metadata: with_value(s.metadata, key@, value@), ..s },
                    ),
                    ..old(self)@
                })
            }),
    {
        let ghost m = self@;
        let i: usize = self.find(id);
        if i >= self.sessions.len() {
            return false;
        }
        assert(m.sessions[i as int] == self.sessions@[i as int]@);
        match self.sessions.remove(i) {
            None => false,
            Some(s) => {
                let mut session = s;
                session.set_metadata(key, value);
                self.sessions.insert(i, session);
                assert(self@.sessions =~= m.sessions.update(i as int, session@));
                true
            },
        }
    }

    /// Remove a session and close its connection.
    pub fn remove_session(&mut self, id: SessionId, at: Moment) -> (r: KcpResult<()>)
        requires
            old(self).wf(),
        ensures
            final(self).wf(),
            !old(self)@.has(id) ==> r is Ok && final(self)@ == old(self)@,
            old(self)@.has(id) ==> ({
                &&& final(self)@ == (SessionsModel {
                    sessions: old(self)@.others(id),
                    ..old(self)@.ended(old(self)@.get(id), at)
                })
                &&& (r is Err <==> old(self)@.connection_of(id).engine.gives_up(at.wall))
                &&& (r matches Err(e) ==> e == (KcpError::Connection {
                    kind: ConnectionError::Lost,
                }))
            }),
    {
        let ghost m = self@;
        proof {
            lemma_others(m, id);
        }
        match self.detach(id) {
            None => Ok(()),
            Some(session) => {
                let peer: u64 = session.peer;
                self.addr_to_session.remove(&peer);
                let r = self.connections.close(session.link, at);
                proof {
                    lemma_still_linked(m.others(id), m.connections, self@.connections);
                }
                r
            },
        }
    }

    /// The numbers of the sessions, in the order in which they were made.
    pub fn sessions(&self) -> (r: Vec<SessionId>)
        ensures
            r@ == Seq::new(self@.sessions.len(), |i: int| self@.sessions[i].id),
    {
        let mut r: Vec<SessionId> = Vec::new();
        let mut i: usize = 0;
        while i < self.sessions.len()
            invariant
                i <= self.sessions@.len(),
                r@.len() == i,
                forall|k: int| 0 <= k < i ==> (#[trigger] r@[k]) == self@.sessions[k].id,
            decreases self.sessions@.len() - i,
        {
            assert(self@.sessions[i as int] == self.sessions@[i as int]@);
            r.push(self.sessions[i].id);
            i = i + 1;
        }
        r
    }

    /// Get session count.
    pub fn session_count(&self) -> (r: usize)
        ensures
            r == self@.sessions.len(),
    {
        self.sessions.len()
    }

    /// Update all listed connections. Says for which of them that failed.
    pub fn update_all(&mut self, at: Moment) -> (r: Vec<ConvId>)
        requires
            old(self).wf(),
        ensures
            final(self).wf(),
            final(self)@ == (SessionsModel {
                connections: old(self)@.connections.updated(at),
                ..old(self)@
            }),
            r@ == connection::failing(old(self)@.connections.slots, at),
    {
        let ghost m = self@;
        let r = self.connections.update_all(at);
        proof {
            connection::lemma_updated_wf(m.connections, at);
            lemma_still_linked(m.sessions, m.connections, self@.connections);
        }
        r
    }

    /// Hand a packet to the connection of the peer. Without a connection nothing happens.
    pub fn receive(&mut self, peer: u64, data: Bytes, at: Moment) -> (r: Option<KcpResult<()>>)
        requires
            old(self).wf(),
        ensures
            final(self).wf(),
            r is Some <==> old(self)@.connections.reaches(peer),
            r is None ==> final(self)@ == old(self)@,
            r matches Some(result) ==> ({
                let m = old(self)@.connections;
                let conv = m.addr_to_conv[peer];
                let c = m.get(conv);
                let bytes = buffers::bytes_of(data);
                &&& final(self)@ == (SessionsModel {
                    connections: m.changed(
                        connection::place(m.slots, conv) as int,
                        c.fed(bytes, at),
                    ),
                    ..old(self)@
                })
                &&& (result is Ok <==> c.takes(bytes, at))
                &&& (result matches Err(e) ==> ConnectionModel::complaint(bytes, e))
            }),
    {
        let ghost m = self@;
        let r = self.connections.receive(peer, data, at);
        proof {
            lemma_still_linked(m.sessions, m.connections, self@.connections);
        }
        r
    }

    /// Take the datagrams of all connections.
    pub fn take_output(&mut self) -> (r: Vec<Outgoing>)
        requires
            old(self).wf(),
        ensures
            final(self).wf(),
            final(self)@ == (SessionsModel {
                connections: old(self)@.connections.drained(),
                ..old(self)@
            }),
            connection::outgoing_models(r@) == Seq::new(
                old(self)@.connections.slots.len(),
                |i: int|
                    (
                        old(self)@.connections.slots[i].connection.peer,
                        old(self)@.connections.slots[i].connection.engine.output,
                    ),
            ),
    {
        let ghost m = self@;
        let r = self.connections.take_output();
        proof {
            connection::lemma_drained_wf(m.connections);
            lemma_still_linked(m.sessions, m.connections, self@.connections);
        }
        r
    }

    /// Clean up the connections. A session keeps its connection, though it is closed when it has
    /// no more use, and so do others that have these links. Hands out what is left to send.
    pub fn cleanup_connections(&mut self, at: Moment, others: &Vec<u64>) -> (r: Vec<Outgoing>)
        requires
            old(self).wf(),
        ensures
            final(self).wf(),
            final(self)@ == old(self)@.connections_cleaned(at, others@),
            connection::outgoing_models(r@) == connection::farewells(
                old(self)@.connections.slots,
                at,
                old(self)@.connections.idle_timeout,
                links_of(old(self)@.sessions) + others@,
            ),
    {
        let ghost m = self@;
        let ghost own = links_of(m.sessions);
        let mut links: Vec<u64> = Vec::new();
        let mut i: usize = 0;
        while i < self.sessions.len()
            invariant
                self@ == m,
                own == links_of(m.sessions),
                m.sessions.len() == self.sessions@.len(),
                i <= m.sessions.len(),
                links@ == own.take(i as int),
            decreases m.sessions.len() - i,
        {
            assert(m.sessions[i as int] == self.sessions@[i as int]@);
            links.push(self.sessions[i].link);
            i = i + 1;
            assert(links@ =~= own.take(i as int));
        }
        assert(links@ =~= own + others@.take(0));
        let mut j: usize = 0;
        while j < others.len()
            invariant
                j <= others@.len(),
                links@ == own + others@.take(j as int),
            decreases others@.len() - j,
        {
            links.push(others[j]);
            j = j + 1;
            assert(links@ =~= own + others@.take(j as int));
        }
        assert(links@ =~= own + others@);
        let r = self.connections.cleanup(at, &links);
        proof {
            lemma_cleaning_keeps_links(m, at, others@);
        }
        r
    }

    /// Get session statistics.
    pub fn session_stats(&self, now: u64) -> (r: Vec<SessionStats>)
        requires
            self.wf(),
        ensures
            r@.len() == self@.sessions.len(),
            forall|i: int|
                0 <= i < r@.len() ==> ({
                    let s = self@.sessions[i];
                    let c = self@.connections.linked(s.link);
                    (#[trigger] r@[i]) == (SessionStats {
                        id: s.id,
                        peer: s.peer,
                        created_at: s.created_at,
                        duration: connection::elapsed(s.created_at, now) as u64,
                        bytes_sent: c.stats.bytes_sent,
                        bytes_received: c.stats.bytes_received,
                        last_activity: s.last_activity,
                    })
                }),
    {
        let mut r: Vec<SessionStats> = Vec::new();
        let mut i: usize = 0;
        while i < self.sessions.len()
            invariant
                self.wf(),
                i <= self.sessions@.len(),
                r@.len() == i,
                forall|k: int|
                    0 <= k < i ==> ({
                        let s = self@.sessions[k];
                        let c = self@.connections.linked(s.link);
                        (#[trigger] r@[k]) == (SessionStats {
                            id: s.id,
                            peer: s.peer,
                            created_at: s.created_at,
                            duration: connection::elapsed(s.created_at, now) as u64,
                            bytes_sent: c.stats.bytes_sent,
                            bytes_received: c.stats.bytes_received,
                            last_activity: s.last_activity,
                        })
                    }),
            decreases self.sessions@.len() - i,
        {
            assert(self@.sessions[i as int] == self.sessions@[i as int]@);
            let session = &self.sessions[i];
            let (bytes_sent, bytes_received): (u64, u64) = match self.connections.linked_connection(
                session.link,
            ) {
                Some(c) => {
                    let stats = c.stats();
                    (stats.bytes_sent, stats.bytes_received)
                },
                None => (0, 0),
            };
            r.push(
                SessionStats {
                    id: session.id,
                    peer: session.peer,
                    created_at: session.created_at,
                    duration: session.duration(now),
                    bytes_sent,
                    bytes_received,
                    last_activity: session.last_activity,
                },
            );
            i = i + 1;
        }
        r
    }

    /// Remove the sessions that have been idle for too long, and close their connections.
    pub fn cleanup(&mut self, at: Moment)
        requires
            old(self).wf(),
        ensures
            final(self).wf(),
            final(self)@ == old(self)@.cleaned(at),
    {
        let ghost m = self@;
        let ghost all = m.sessions;
        let timeout: u64 = self.session_timeout;
        let mut kept: VecDeque<Session> = VecDeque::new();
        let ghost mut k: int = 0;
        proof {
            assert(all.skip(0) =~= all);
            assert(session_models(kept@) =~= busy(all.take(0), at.instant, timeout));
        }
        while self.sessions.len() > 0
            invariant
                m.wf(),
                all == m.sessions,
                timeout == m.session_timeout,
                0 <= k <= all.len(),
                self@.connections.wf(),
                forall|l: u64| m.connections.uses(l) ==> #[trigger] self@.connections.uses(l),
                self@ == (SessionsModel {
                    sessions: all.skip(k),
                    ..m.idle_ended(all.take(k), at)
                }),
                session_models(kept@) == busy(all.take(k), at.instant, timeout),
            decreases self.sessions@.len(),
        {
            let ghost queue = self.sessions@;
            proof {
                lemma_sessions_front(queue);
                assert(session_models(queue) == all.skip(k));
                assert(all.skip(k).skip(1) =~= all.skip(k + 1));
                assert(all.skip(k)[0] == all[k]);
                assert(all.take(k + 1).drop_last() =~= all.take(k));
                assert(all.take(k + 1).last() == all[k]);
            }
            match self.sessions.pop_front() {
                Some(session) => {
                    if session.is_idle(at.instant, timeout) {
                        let peer: u64 = session.peer;
                        self.addr_to_session.remove(&peer);
                        let _ = self.connections.close(session.link, at);
                    } else {
                        let ghost before = kept@;
                        let ghost model = session@;
                        kept.push_back(session);
                        assert(session_models(kept@) =~= session_models(before).push(model));
                    }
                    proof {
                        k = k + 1;
                    }
                },
                None => {},
            }
        }
        proof {
            assert(self@.sessions.len() == all.len() - k);
            assert(all.take(k) =~= all);
            lemma_busy(all, at.instant, timeout);
            lemma_busy_linked(all, m.connections, at.instant, timeout);
            lemma_still_linked(
                busy(all, at.instant, timeout),
                m.connections,
                self@.connections,
            );
        }
        self.sessions = kept;
    }
}

/// Sessions whose connections are all still there have their connections.
proof fn lemma_still_linked(sessions: Seq<SessionModel>, before: ManagerModel, after: ManagerModel)
    requires
        all_linked(sessions, before),
        forall|l: u64| before.uses(l) ==> #[trigger] after.uses(l),
    ensures
        all_linked(sessions, after),
{
}

/// A cleanup keeps sessions that have their connections.
proof fn lemma_busy_linked(
    sessions: Seq<SessionModel>,
    connections: ManagerModel,
    now: u64,
    timeout: u64,
)
    requires
        one_each(sessions),
        all_linked(sessions, connections),
    ensures
        all_linked(busy(sessions, now, timeout), connections),
{
    lemma_busy(sessions, now, timeout);
    let o = busy(sessions, now, timeout);
    assert forall|i: int| 0 <= i < o.len() implies connections.uses((#[trigger] o[i]).link) by {
        assert(sessions.contains(o[i]));
    }
}

/// A new connection leaves each session its own.
proof fn lemma_connecting_keeps_links(
    m: SessionsModel,
    peer: u64,
    conv: ConvId,
    link: u64,
    at: Moment,
)
    requires
        m.wf(),
        m.connections.may_link(link),
    ensures
        all_linked(m.sessions, m.connections.connected(peer, conv, link, at)),
{
    assert forall|i: int| 0 <= i < m.sessions.len() implies m.connections.connected(
        peer,
        conv,
        link,
        at,
    ).uses((#[trigger] m.sessions[i]).link) by {
        connection::law_connecting_redirects_no_link(
            m.connections,
            peer,
            conv,
            link,
            at,
            m.sessions[i].link,
        );
    }
}

/// A cleanup of the connections leaves each session its own.
proof fn lemma_cleaning_keeps_links(m: SessionsModel, at: Moment, others: Seq<u64>)
    requires
        m.wf(),
    ensures
        all_linked(m.sessions, m.connections_cleaned(at, others).connections),
{
    let links = links_of(m.sessions) + others;
    assert forall|i: int| 0 <= i < m.sessions.len() implies m.connections_cleaned(
        at,
        others,
    ).connections.uses((#[trigger] m.sessions[i]).link) by {
        assert(links[i] == m.sessions[i].link);
        connection::lemma_cleaned(m.connections, at, links, m.sessions[i].link);
    }
}

/// A session that has just been made is found by its number and by its peer, and has the
/// connection that it was made for.
pub proof fn law_session_is_found(m: SessionsModel, link: u64, now: u64)
    requires
        one_each(m.sessions),
    ensures
        ({
            let after = m.adopted(link, now);
            let peer = m.connections.linked(link).peer;
            &&& after.has(m.next_session_id)
            &&& after.reaches(peer)
            &&& after.get(m.next_session_id).peer == peer
            &&& after.get(m.next_session_id).link == link
            &&& after.connection_of(m.next_session_id) == m.connections.linked(link)
        }),
{
    let id = m.next_session_id;
    lemma_others(m, id);
    let others = m.others(id);
    let after = m.adopted(link, now).sessions;
    let n = others.len() as int;
    assert forall|k: int| 0 <= k < n implies (#[trigger] after[k]).id != id by {
        assert(after[k] == others[k]);
    }
    lemma_session_place_is(after, id, n);
}

/// A session keeps its connection when another session is made, also when the new connection
/// takes the conversation of the older one.
pub proof fn law_connecting_redirects_no_session(
    m: SessionsModel,
    peer: u64,
    conv: ConvId,
    link: u64,
    at: Moment,
    id: SessionId,
)
    requires
        m.wf(),
        m.connections.may_link(link),
        m.has(id),
        id != m.next_session_id,
    ensures
        ({
            let after = m.connected(peer, conv, link, at);
            &&& after.has(id)
            &&& after.get(id) == m.get(id)
            &&& after.connection_of(id) == m.connection_of(id)
        }),
{
    let after = m.connected(peer, conv, link, at).sessions;
    let next = m.next_session_id;
    let others = m.others(next);
    let p = session_place(m.sessions, id) as int;
    let q = session_place(m.sessions, next) as int;
    lemma_session_place(m.sessions, id);
    lemma_session_place(m.sessions, next);
    let w = if m.has(next) && q < p {
        p - 1
    } else {
        p
    };
    assert(after[w] == m.sessions[p]);
    assert forall|k: int| 0 <= k < w implies (#[trigger] after[k]).id != id by {
        if m.has(next) && k >= q {
            assert(after[k] == m.sessions[k + 1]);
        } else {
            assert(after[k] == m.sessions[k]);
        }
    }
    lemma_session_place_is(after, id, w);
    connection::law_connecting_redirects_no_link(
        m.connections,
        peer,
        conv,
        link,
        at,
        m.get(id).link,
    );
}

/// A session keeps its connection, with its statistics, when the connections are cleaned up.
pub proof fn law_cleanup_keeps_session_connections(
    m: SessionsModel,
    at: Moment,
    others: Seq<u64>,
    id: SessionId,
)
    requires
        m.wf(),
        m.has(id),
    ensures
        ({
            let after = m.connections_cleaned(at, others);
            &&& after.has(id)
            &&& after.get(id) == m.get(id)
            &&& after.connections.uses(m.get(id).link)
            &&& after.connection_of(id).info() == m.connection_of(id).info()
            &&& after.connection_of(id).stats == m.connection_of(id).stats
        }),
{
    let p = session_place(m.sessions, id) as int;
    let links = links_of(m.sessions) + others;
    assert(links[p] == m.sessions[p].link);
    connection::law_cleanup_keeps_links_in_use(m.connections, at, links, m.get(id).link);
}

/// After a cleanup no session is left that has been idle for too long, and none has been made
/// up.
pub proof fn law_cleanup_leaves_busy_sessions(m: SessionsModel, at: Moment, i: int)
    requires
        m.wf(),
        0 <= i < m.cleaned(at).sessions.len(),
    ensures
        !m.cleaned(at).sessions[i].idle(at.instant, m.session_timeout),
        m.sessions.contains(m.cleaned(at).sessions[i]),
{
    lemma_busy(m.sessions, at.instant, m.session_timeout);
    assert(m.cleaned(at).sessions[i] == busy(m.sessions, at.instant, m.session_timeout)[i]);
}

} // verus!
