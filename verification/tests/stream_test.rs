use bytes::Bytes;
use kcp_tokio::config::{KcpConfig, NodeDelayConfig};
use kcp_tokio::engine::KcpEngine;
use kcp_tokio::stream::{
    actor_settings, assigned_conv, client_engine, initial_conv, send_high_water, server_conv,
    server_engine, stream_limits, ReadStep, ShutdownStep, StreamState,
};

#[test]
fn limits_follow_the_configuration() {
    let l = stream_limits(&KcpConfig::new());
    assert_eq!((l.mss, l.max_msg), (1376, 1376 * 128));
    let l = stream_limits(&KcpConfig::new().mtu(100).recv_window(16));
    assert_eq!((l.mss, l.max_msg), (76, 76 * 16));
    assert_eq!(send_high_water(&KcpConfig::new()), 128);
    assert_eq!(send_high_water(&KcpConfig::new().send_window(2)), 64);
    let s = actor_settings(&KcpConfig::gaming());
    assert_eq!(s.update_interval_ms, 3);
    assert_eq!(s.keep_alive_ms, Some(10_000));
    assert_eq!(s.simulate_loss, None);
    assert_eq!(s.send_high_water, 256);
}

#[test]
fn conversations_are_assigned() {
    assert_eq!(assigned_conv(0, 7), 7);
    assert_eq!(assigned_conv(5, 7), 5);
    assert_eq!(server_conv(5), 5);
    assert_ne!(server_conv(0), 0);
    assert_ne!(initial_conv(true), 0);
    assert_eq!(initial_conv(false), 0);
}

fn first_packet(conv: u32) -> Bytes {
    let mut client = KcpEngine::new_at(conv, KcpConfig::new().into(), 0);
    client.send(Bytes::from_static(b"hi")).unwrap();
    client.flush_at(0).unwrap();
    client.drain_output()[0].clone()
}

#[test]
fn servers_answer_the_first_packet() {
    let config = KcpConfig::new();
    // The client leaves the conversation open.
    let mut engine = server_engine(0, 77, &config, first_packet(0), 10).ok().unwrap();
    assert_eq!(engine.conv(), 77);
    assert_eq!(&engine.recv().unwrap().unwrap()[..], b"hi");
    let answer = engine.drain_output();
    assert_eq!(answer.len(), 1);
    assert_eq!(answer[0][0], 77);
    assert_eq!(answer[0][4], 82);
}

#[test]
fn servers_refuse_what_they_cannot_read() {
    let config = KcpConfig::new();
    let text = |r: Result<KcpEngine, kcp_tokio::KcpError>| r.err().unwrap().describe();
    assert_eq!(
        text(server_engine(3, 3, &config, first_packet(4), 0)),
        "Protocol error: Invalid conversation ID"
    );
    assert_eq!(
        text(server_engine(3, 3, &config, Bytes::from_static(b"tiny"), 0)),
        "Protocol error: Packet too small"
    );
    assert_eq!(
        text(server_engine(3, 3, &config.mtu(1), first_packet(3), 0)),
        "Configuration error: MTU must be between 64 and 65535"
    );
    let still = NodeDelayConfig::custom(false, 0, 0, false);
    assert_eq!(
        text(client_engine(3, &config.nodelay_config(still), 0)),
        "Configuration error: Update interval must be greater than 0"
    );
    assert!(client_engine(3, &config, 0).is_ok());
}

#[test]
fn messages_are_checked() {
    let mut s = StreamState::new(stream_limits(&KcpConfig::new().mtu(100).recv_window(2)));
    assert!(s.check_send(152).is_ok());
    assert_eq!(
        s.check_send(153).unwrap_err().describe(),
        "Buffer error: message of 153 bytes exceeds max 152 for one send; use AsyncWrite for \
         streaming"
    );
    assert_eq!(s.write_len(1000).unwrap(), 76);
    assert_eq!(s.write_len(10).unwrap(), 10);
    assert!(s.close());
    assert!(!s.close());
    assert!(s.is_closed());
    assert_eq!(s.check_send(1).unwrap_err().describe(), "Connection error: connection closed");
    assert_eq!(s.write_len(1).unwrap_err().describe(), "I/O error: Stream is closed");
}

fn bytes(step: ReadStep) -> Vec<u8> {
    match step {
        ReadStep::Data(b) => b.to_vec(),
        _ => panic!("no data"),
    }
}

#[test]
fn reads_are_in_order() {
    let mut s = StreamState::new(stream_limits(&KcpConfig::new()));
    assert!(matches!(s.read(10), ReadStep::Wait));
    assert_eq!(&s.read_message(Bytes::from_static(b"hello world"), 5)[..], b"hello");
    assert_eq!(bytes(s.read(3)), b" wo");
    s.close();
    // What was received can still be read.
    assert_eq!(bytes(s.read(100)), b"rld");
    assert!(matches!(s.read(10), ReadStep::End));
}

#[test]
fn shutdowns_wait_for_the_task() {
    let mut s = StreamState::new(stream_limits(&KcpConfig::new()));
    // The task is asked to close once, even if it has ended already.
    assert_eq!(s.shutdown(true), ShutdownStep::Ask);
    assert_eq!(s.shutdown(false), ShutdownStep::Wait);
    assert!(!s.is_closed());
    assert!(s.write_len(1).is_ok());
    assert_eq!(s.shutdown(true), ShutdownStep::Done);
    assert!(s.is_closed());
    assert_eq!(s.write_len(1).unwrap_err().describe(), "I/O error: Stream is closed");
    assert_eq!(s.shutdown(false), ShutdownStep::Done);
}

#[test]
fn messages_that_do_not_fit_in_memory_are_recognized() {
    let mut s = StreamState::new(stream_limits(&KcpConfig::new()));
    assert!(s.has_room_for(usize::MAX / 4));
    assert!(!s.has_room_for(usize::MAX / 4 + 1));
    let _ = s.read_message(bytes::Bytes::from_static(b"abc"), 1);
    assert!(s.has_room_for(usize::MAX / 4 - 2));
    assert!(!s.has_room_for(usize::MAX / 4 - 1));
    assert!(!s.has_room_for(usize::MAX));
}
