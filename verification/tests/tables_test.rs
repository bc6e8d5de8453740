use bytes::Bytes;
use kcp_tokio::actor::Moment;
use kcp_tokio::config::KcpConfig;
use kcp_tokio::connection::{ConnectionManager, ConnectionState, KcpConnection};
use kcp_tokio::connection_manager::{ConnectionManager as StreamManager, StreamHandle};
use kcp_tokio::listener::{ConnectionTable, PacketAction};
use kcp_tokio::protocol::{KcpSegment, constants};
use kcp_tokio::session::{generate_conversation_id, ChannelEvent, Session, SessionManager};

fn at(t: u64) -> Moment {
    Moment { wall: t as u32, instant: t }
}

fn packet(conv: u32) -> Bytes {
    let seg = KcpSegment::new_at(conv, constants::IKCP_CMD_PUSH, 0, Bytes::from_static(b"hi"));
    let mut buf = bytes::BytesMut::new();
    seg.encode(&mut buf);
    buf.freeze()
}

#[test]
fn first_packets_open_connections() {
    let mut t = ConnectionTable::new();
    match t.on_packet(1, packet(42), 100) {
        PacketAction::Queue(c) => {
            assert_eq!((c.peer, c.conv, c.created_at), (1, 42, 100));
            assert_eq!(c.handshake_data, packet(42));
        }
        _ => panic!("not queued"),
    }
    assert_eq!(t.pending_count(), 1);
    assert!(t.is_known(1));
    assert!(!t.is_known(2));
    // Once only.
    assert!(matches!(t.on_packet(1, packet(42), 101), PacketAction::Ignore));
    assert!(matches!(t.on_packet(2, Bytes::from_static(b"short"), 101), PacketAction::Ignore));
    assert!(t.begin_accept(1));
    assert!(matches!(t.on_packet(1, packet(42), 102), PacketAction::Ignore));
    t.accept_done(1, 9);
    assert_eq!(t.pending_count(), 0);
    assert!(!t.begin_accept(1));
    assert!(matches!(t.on_packet(1, Bytes::new(), 103), PacketAction::Route(9)));
    assert_eq!(t.routed(), vec![(1, 9)]);
    t.cleanup_dead_streams(&vec![1]);
    assert!(t.routed().is_empty());
    assert!(matches!(t.on_packet(1, packet(43), 104), PacketAction::Queue(_)));
}

#[test]
fn failed_acceptance_can_be_tried_again() {
    let mut t = ConnectionTable::new();
    let _ = t.on_packet(1, packet(1), 0);
    assert!(t.begin_accept(1));
    t.accept_failed(1);
    // It still waits.
    assert_eq!(t.pending_count(), 1);
    assert!(matches!(t.on_packet(1, packet(1), 1), PacketAction::Ignore));
    t.forget_pending(1);
    assert!(matches!(t.on_packet(1, packet(1), 2), PacketAction::Queue(_)));
}

#[test]
fn old_connections_are_forgotten() {
    let mut t = ConnectionTable::new();
    let _ = t.on_packet(1, packet(1), 0);
    let _ = t.on_packet(2, packet(2), 50);
    t.cleanup_pending_connections(99, 100);
    assert_eq!(t.pending_count(), 2);
    t.cleanup_pending_connections(100, 100);
    assert_eq!(t.pending_count(), 1);
    t.cleanup_pending_connections(150, 100);
    assert_eq!(t.pending_count(), 0);
}

#[test]
fn removed_peers_keep_their_route() {
    let mut t = ConnectionTable::new();
    t.accept_done(1, 5);
    t.remove_active_connection(1);
    // A stream takes its packets; one that the stream does not take would open a connection.
    assert!(matches!(t.on_packet(1, packet(1), 0), PacketAction::Route(5)));
    let opened = t.handle_incoming_packet(1, packet(77), 3).unwrap();
    assert_eq!((opened.peer, opened.conv, opened.created_at), (1, 77, 3));
    assert_eq!(opened.handshake_data, packet(77));
    assert!(t.handle_incoming_packet(1, packet(77), 4).is_none());
    assert!(t.handle_incoming_packet(2, Bytes::from_static(b"short"), 4).is_none());
    assert_eq!(t.pending_count(), 1);
    assert!(t.begin_accept(1));
}

#[test]
fn streams_are_registered() {
    let mut m = StreamManager::default();
    m.register_stream(StreamHandle { peer: 1, stream: 10 });
    m.register_stream(StreamHandle { peer: 2, stream: 20 });
    m.register_stream(StreamHandle { peer: 1, stream: 11 });
    assert_eq!(m.stream_count(), 2);
    assert_eq!(m.route_packet(1), Some(11));
    assert_eq!(m.route_packet(3), None);
    m.unregister_stream(1);
    assert!(!m.has_stream(1));
    assert!(m.has_stream(2));
}

#[test]
fn connections_have_states() {
    let mut c = KcpConnection::new(7, 1, KcpConfig::new().into(), at(0));
    assert_eq!(c.state(), ConnectionState::Connecting);
    assert_eq!(
        c.send(Bytes::from_static(b"x"), at(1)).unwrap_err().describe(),
        "Connection error: not connected"
    );
    c.start().unwrap();
    c.send(Bytes::from_static(b"x"), at(5)).unwrap();
    assert_eq!(
        c.send(Bytes::from(vec![0u8; 200_000]), at(6)).unwrap_err().describe(),
        "Buffer error: Message too large for window"
    );
    assert!(!c.is_idle(105, 100));
    assert!(c.is_idle(106, 100));
    c.update(at(100)).unwrap();
    assert_eq!(c.take_output().len(), 1);
    assert_eq!(c.stats().bytes_sent, 1);
    let info = c.info();
    assert_eq!((info.conv, info.peer, info.created_at), (7, 1, 0));
    assert!(c.recv(at(101)).unwrap().is_none());
    assert_eq!(
        c.input(packet(8), at(102)).unwrap_err().describe(),
        "Protocol error: Invalid conversation ID"
    );
    c.input(packet(7), at(103)).unwrap();
    assert_eq!(&c.recv(at(104)).unwrap().unwrap()[..], b"hi");
    c.close(at(105)).unwrap();
    assert_eq!(c.state(), ConnectionState::Closed);
}

#[test]
fn dead_connections_fail() {
    let config = KcpConfig::new().max_retries(1);
    let mut m = ConnectionManager::new(&config);
    let link = m.connect(1, 7, at(0));
    m.send(link, Bytes::from_static(b"x"), at(0)).unwrap();
    assert!(m.update_all(at(100)).is_empty());
    assert_eq!(m.take_output()[0].packets.len(), 1);
    assert_eq!(m.update_all(at(1_000)), vec![7]);
    assert_eq!(m.update_all(at(100_000)), vec![7]);
    assert_eq!(m.update_all(at(100_001)), vec![7]);
    assert_eq!(m.get_connection(7).unwrap().state(), ConnectionState::Failed);
    let _ = m.cleanup(at(100_002), &vec![]);
    assert_eq!(m.connection_count(), 0);
}

#[test]
fn connections_are_found_and_removed() {
    let mut m = ConnectionManager::new(&KcpConfig::new().keep_alive(Some(1000)));
    let a = m.connect(1, 7, at(0));
    let b = m.connect(2, 8, at(0));
    assert_eq!((m.link_of(7), m.link_of(8), m.link_of(9)), (Some(a), Some(b), None));
    assert_eq!(m.connection_count(), 2);
    assert_eq!(m.connections()[1].peer, 2);
    assert_eq!(m.get_connection_by_addr(2).unwrap().info().conv, 8);
    assert!(m.get_connection(9).is_none());
    assert!(m.get_connection_by_addr(3).is_none());
    assert!(m.receive(3, packet(7), at(1)).is_none());
    assert!(m.receive(1, packet(7), at(1)).unwrap().is_ok());
    assert!(m.receive(2, packet(7), at(1)).unwrap().is_err());
    assert_eq!(&m.recv(a, at(2)).unwrap().unwrap()[..], b"hi");
    assert!(m.recv(b, at(2)).unwrap().is_none());
    assert_eq!(
        m.send(9, Bytes::from_static(b"x"), at(2)).unwrap_err().describe(),
        "Connection error: not connected"
    );
    assert!(m.recv(9, at(2)).is_err());
    let (result, left) = m.remove_connection(7, at(3));
    assert!(result.is_ok());
    // The acknowledgement that it owed.
    let left = left.unwrap();
    assert_eq!(left.peer, 1);
    assert_eq!(left.packets.len(), 1);
    assert!(m.get_connection_by_addr(1).is_none());
    assert!(m.remove_connection(7, at(3)).1.is_none());
    // It is still there for whoever has its link.
    assert_eq!(m.connection_count(), 1);
    assert!(m.get_connection(7).is_none());
    assert_eq!(m.linked_connection(a).unwrap().state(), ConnectionState::Closed);
    // The other one is idle by now.
    let gone = m.cleanup(at(1002), &vec![a]);
    assert_eq!(gone.len(), 1);
    assert_eq!(gone[0].peer, 2);
    assert_eq!(m.connection_count(), 0);
    assert!(m.linked_connection(a).is_some());
    assert!(m.linked_connection(b).is_none());
    let gone = m.cleanup(at(1003), &vec![]);
    assert_eq!(gone.len(), 1);
    assert_eq!(gone[0].peer, 1);
    assert!(gone[0].packets.is_empty());
    assert!(m.linked_connection(a).is_none());
}

#[test]
fn links_are_not_redirected() {
    let mut m = ConnectionManager::new(&KcpConfig::new());
    let a = m.connect(1, 7, at(0));
    let b = m.connect(2, 7, at(0));
    assert_ne!(a, b);
    assert_eq!(m.connection_count(), 1);
    assert_eq!(m.get_connection(7).unwrap().info().peer, 2);
    assert_eq!(m.linked_connection(a).unwrap().info().peer, 1);
    // Data goes out at once, to the peer of the connection that was meant.
    m.send(a, Bytes::from_static(b"x"), at(1)).unwrap();
    let out = m.take_output();
    assert_eq!((out[0].peer, out[0].packets.len()), (1, 1));
    assert_eq!((out[1].peer, out[1].packets.len()), (2, 0));
    // Only listed connections are updated.
    assert!(m.update_all(at(1_000)).is_empty());
    assert!(m.take_output()[0].packets.is_empty());
    assert_eq!(m.linked_connection(a).unwrap().stats().bytes_sent, 0);
    m.close(a, at(2_000)).unwrap();
    assert_eq!(m.linked_connection(a).unwrap().state(), ConnectionState::Closed);
    assert_eq!(m.linked_connection(b).unwrap().state(), ConnectionState::Connected);
}

#[test]
fn sessions_have_metadata() {
    let mut s = Session::new(1, 2, 3, 100);
    assert_eq!((s.id(), s.peer_addr(), s.link()), (1, 2, 3));
    assert_eq!(s.get_metadata("user"), None);
    s.set_metadata("user".to_string(), "ann".to_string());
    s.set_metadata("room".to_string(), "a".to_string());
    s.set_metadata("user".to_string(), "bob".to_string());
    assert_eq!(s.get_metadata("user"), Some("bob".to_string()));
    assert_eq!(s.get_metadata("room"), Some("a".to_string()));
    assert_eq!(s.metadata().len(), 2);
    assert_eq!(s.duration(150), 50);
    assert!(!s.is_idle(200, 100));
    assert!(s.is_idle(201, 100));
    let data = s.recv(ChannelEvent::Data(Bytes::from_static(b"d")), 201).unwrap();
    assert_eq!(&data.unwrap()[..], b"d");
    assert!(!s.is_idle(201, 100));
    assert!(s.recv(ChannelEvent::Empty, 300).unwrap().is_none());
    assert_eq!(
        s.recv(ChannelEvent::Disconnected, 300).unwrap_err().describe(),
        "Connection error: connection closed"
    );
}

#[test]
fn sessions_are_found_and_removed() {
    let mut m = SessionManager::new(&KcpConfig::new().keep_alive(Some(1000)));
    let a = m.connect_with(10, 7, at(0));
    let b = m.connect(11, at(0));
    assert_eq!((a, b), (1, 2));
    assert_eq!(m.sessions(), vec![1, 2]);
    assert_eq!(m.connection_of(1).unwrap().info().conv, 7);
    assert!(m.connection_of(3).is_none());
    assert_eq!(m.get_session_by_addr(11).unwrap().id(), 2);
    assert!(m.get_session(3).is_none());
    m.send(1, Bytes::from_static(b"hello"), at(500)).unwrap();
    assert_eq!(
        m.send(3, Bytes::from_static(b"hello"), at(500)).unwrap_err().describe(),
        "Connection error: not connected"
    );
    assert!(m.set_metadata(2, "room".to_string(), "b".to_string()));
    assert!(!m.set_metadata(3, "room".to_string(), "b".to_string()));
    assert_eq!(m.get_session(2).unwrap().get_metadata("room"), Some("b".to_string()));
    assert_eq!(m.get_session(1).unwrap().get_metadata("room"), None);
    assert!(m.update_all(at(500)).is_empty());
    let stats = m.session_stats(600);
    assert_eq!(stats[0].bytes_sent, 5);
    assert_eq!(stats[0].last_activity, 500);
    assert_eq!(stats[1].duration, 600);
    // The second one is idle first.
    m.cleanup(at(1001));
    assert_eq!(m.sessions(), vec![1]);
    assert!(m.get_session_by_addr(11).is_none());
    m.close_session(1, at(1002)).unwrap();
    m.close_session(2, at(1002)).unwrap();
    assert_eq!(m.connection_of(1).unwrap().state(), ConnectionState::Closed);
    assert_eq!(
        m.send(1, Bytes::from_static(b"hello"), at(1002)).unwrap_err().describe(),
        "Connection error: not connected"
    );
    m.remove_session(1, at(1002)).unwrap();
    assert_eq!(m.session_count(), 0);
    m.remove_session(1, at(1002)).unwrap();
}

#[test]
fn sessions_keep_their_connections() {
    let mut m = SessionManager::new(&KcpConfig::new().keep_alive(Some(1000)));
    let a = m.connect_with(10, 7, at(0));
    m.send(a, Bytes::from_static(b"hello"), at(100)).unwrap();
    assert!(m.update_all(at(100)).is_empty());
    assert_eq!(m.session_stats(100)[0].bytes_sent, 5);
    // Another connection takes the conversation.
    let b = m.connect_with(11, 7, at(200));
    let stats = m.session_stats(200);
    assert_eq!((stats[0].bytes_sent, stats[1].bytes_sent), (5, 0));
    assert_eq!(m.connection_of(a).unwrap().info().peer, 10);
    assert_eq!(m.connection_of(b).unwrap().info().peer, 11);
    let _ = m.take_output();
    m.send(a, Bytes::from_static(b"more"), at(300)).unwrap();
    let out = m.take_output();
    assert_eq!((out[0].peer, out[0].packets.len()), (10, 1));
    assert_eq!((out[1].peer, out[1].packets.len()), (11, 0));
    // An accepted session shares the connection.
    let link = m.get_session(b).unwrap().link();
    let c = m.accept(link, 400).unwrap();
    assert_eq!(m.connection_of(c).unwrap().info().peer, 11);
    assert_eq!(m.get_session_by_addr(11).unwrap().id(), c);
    assert_eq!(m.accept(99, 400), None);
    // What comes for the peer goes through its session's channel.
    assert!(m.receive(11, packet(7), at(400)).unwrap().is_ok());
    let message = m.take_message(c, at(400)).unwrap().unwrap();
    assert_eq!(&message[..], b"hi");
    assert!(m.take_message(c, at(400)).unwrap().is_none());
    assert!(m.take_message(99, at(400)).is_err());
    let data = m.recv(c, ChannelEvent::Data(message), 450).unwrap().unwrap();
    assert_eq!(&data[..], b"hi");
    assert_eq!(m.session_stats(450)[2].last_activity, 450);
    assert!(m.recv(c, ChannelEvent::Empty, 460).unwrap().is_none());
    assert_eq!(
        m.recv(c, ChannelEvent::Disconnected, 460).unwrap_err().describe(),
        "Connection error: connection closed"
    );
    assert_eq!(
        m.recv(99, ChannelEvent::Empty, 460).unwrap_err().describe(),
        "Connection error: not connected"
    );
    assert_eq!(m.session_stats(460)[2].last_activity, 450);
    // Both connections are of no more use, but the sessions keep them.
    let left = m.cleanup_connections(at(5_000), &vec![]);
    assert_eq!(left.len(), 1);
    assert_eq!(left[0].peer, 11);
    assert_eq!(m.session_stats(5_000)[0].bytes_sent, 5);
    assert_eq!(m.connection_of(b).unwrap().state(), ConnectionState::Closed);
    assert!(m.receive(11, packet(7), at(5_000)).is_none());
    // With the sessions they go.
    m.cleanup(at(6_000));
    assert_eq!(m.session_count(), 0);
    assert_eq!(m.cleanup_connections(at(6_000), &vec![link]).len(), 1);
    assert_eq!(m.accept(link, 6_000), Some(c + 1));
}

#[test]
fn conversations_are_drawn() {
    let a = generate_conversation_id();
    let b = generate_conversation_id();
    let c = generate_conversation_id();
    assert!(a != b || b != c);
}
