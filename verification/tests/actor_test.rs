use bytes::Bytes;
use kcp_tokio::actor::{survives, thin_out, ActorSettings, EngineActor, Moment, Step, LINGER_MS};
use kcp_tokio::config::KcpConfig;
use kcp_tokio::engine::KcpEngine;

fn at(t: u64) -> Moment {
    Moment { wall: t as u32, instant: t }
}

fn actor(keep_alive_ms: Option<u64>) -> EngineActor {
    let settings = ActorSettings {
        update_interval_ms: 8,
        keep_alive_ms,
        simulate_loss: None,
        send_high_water: 64,
    };
    let config = KcpConfig::new().fast_mode();
    EngineActor::new(KcpEngine::new_at(5, config.into(), 0), settings, 0)
}

fn sent(step: Step) -> Vec<Bytes> {
    match step {
        Step::Send(packets) => packets,
        Step::Stop => panic!("stopped"),
    }
}

#[test]
fn data_goes_out_and_comes_in() {
    let mut a = actor(None);
    let mut b = actor(None);
    assert!(a.begin(at(0)).is_empty());
    a.on_data(Bytes::from_static(b"one")).unwrap();
    a.on_data(Bytes::from_static(b"two")).unwrap();
    let packets = sent(a.on_data_end(at(1)));
    assert_eq!(packets.len(), 1);
    let answers = sent(b.on_packet(packets[0].clone(), at(2)));
    assert_eq!(answers.len(), 1);
    assert_eq!(&b.take_message().unwrap()[..], b"one");
    assert_eq!(&b.take_message().unwrap()[..], b"two");
    assert!(b.take_message().is_none());
    assert!(sent(a.on_packet(answers[0].clone(), at(3))).is_empty());
    assert_eq!(a.stats().bytes_sent, 6);
    assert!(a.is_alive());
    let (result, packets) = a.on_flush(at(4));
    assert!(result.is_ok());
    assert!(packets.is_empty());
}

#[test]
fn sleep_is_bounded() {
    let a = actor(None);
    assert_eq!(a.wait_ms(0), 1000);
    let a = actor(Some(200));
    assert_eq!(a.wait_ms(0), 200);
    let a = actor(Some(1));
    assert_eq!(a.wait_ms(0), 8);
    let mut a = actor(None);
    a.on_data(Bytes::from_static(b"x")).unwrap();
    assert_eq!(a.wait_ms(0), 1);
    let _ = a.on_data_end(at(0));
    assert_eq!(a.wait_ms(0), 200);
}

#[test]
fn silent_peers_are_probed_and_then_given_up() {
    let mut a = actor(Some(200));
    assert!(sent(a.on_timer(at(199))).is_empty());
    assert_eq!(sent(a.on_timer(at(200))).len(), 1);
    assert!(sent(a.on_timer(at(399))).is_empty());
    assert_eq!(sent(a.on_timer(at(400))).len(), 1);
    assert!(matches!(a.on_timer(at(600)), Step::Stop));
}

#[test]
fn lost_links_stop_the_task() {
    let settings = ActorSettings {
        update_interval_ms: 8,
        keep_alive_ms: None,
        simulate_loss: None,
        send_high_water: 64,
    };
    let config = KcpConfig::new().max_retries(1);
    let mut a = EngineActor::new(KcpEngine::new_at(5, config.into(), 0), settings, 0);
    a.on_data(Bytes::from_static(b"x")).unwrap();
    assert_eq!(sent(a.on_data_end(at(0))).len(), 1);
    assert!(matches!(a.on_timer(at(5000)), Step::Stop));
    let mut a = EngineActor::new(KcpEngine::new_at(5, config.into(), 0), settings, 0);
    a.on_data(Bytes::from_static(b"x")).unwrap();
    let _ = a.on_data_end(at(0));
    let (result, packets) = a.on_flush(at(5000));
    assert_eq!(result.unwrap_err().describe(), "Connection error: connection lost");
    assert_eq!(packets.len(), 1);
}

#[test]
fn closing_waits_for_acknowledgements() {
    let mut a = actor(None);
    let mut b = actor(None);
    assert!(a.takes_commands() && a.takes_data() && a.has_room());
    assert!(a.finish(at(0)).is_none());
    let packets = a.on_close(vec![Bytes::from_static(b"tail")], at(10));
    assert_eq!(packets.len(), 1);
    assert!(!a.takes_commands() && !a.takes_data());
    assert!(a.finish(at(11)).is_none());
    let answers = sent(b.on_packet(packets[0].clone(), at(12)));
    assert_eq!(&b.take_message().unwrap()[..], b"tail");
    let _ = sent(a.on_packet(answers[0].clone(), at(13)));
    assert!(a.finish(at(14)).is_some());
}

#[test]
fn closing_does_not_wait_for_ever() {
    let mut a = actor(None);
    let _ = a.on_close(vec![Bytes::from_static(b"tail")], at(10));
    assert!(a.finish(at(10 + LINGER_MS - 1)).is_none());
    assert!(a.finish(at(10 + LINGER_MS)).is_some());
    let mut a = actor(None);
    let _ = a.on_close(Vec::new(), at(u64::MAX));
    assert!(a.finish(at(u64::MAX)).is_some());
}

#[test]
fn closing_delivers_the_tail_under_loss() {
    let settings = ActorSettings {
        update_interval_ms: 8,
        keep_alive_ms: None,
        simulate_loss: None,
        send_high_water: 256,
    };
    let config = KcpConfig::new().fast_mode().window_size(128, 128);
    let mut a = EngineActor::new(KcpEngine::new_at(5, config.into(), 0), settings, 0);
    let mut b = EngineActor::new(KcpEngine::new_at(5, config.into(), 0), settings, 0);
    let data: Vec<u8> = (0..65536).map(|i| (i % 251) as u8).collect();
    let mut left: Vec<Bytes> = data.chunks(1376).map(Bytes::copy_from_slice).collect();
    let held = left.split_off(20);
    for chunk in left {
        a.on_data(chunk).unwrap();
    }
    let mut to_b = sent(a.on_data_end(at(0)));
    let mut now = 10;
    to_b.extend(a.on_close(held, at(now)));
    let mut received = Vec::new();
    let mut count = 0;
    loop {
        let mut to_a = Vec::new();
        for packet in to_b.drain(..) {
            count += 1;
            // Every fifth datagram is lost.
            if count % 5 != 0 {
                to_a.extend(sent(b.on_packet(packet, at(now))));
            }
        }
        while let Some(message) = b.take_message() {
            received.extend_from_slice(&message);
        }
        for packet in to_a {
            to_b.extend(sent(a.on_packet(packet, at(now))));
        }
        if let Some(last) = a.finish(at(now)) {
            assert!(last.is_empty());
            break;
        }
        now += a.wait_ms(now as u32);
        to_b.extend(sent(a.on_timer(at(now))));
    }
    assert!(now < 10 + LINGER_MS);
    assert_eq!(received, data);
}

#[test]
fn writers_that_are_gone_send_nothing() {
    let mut a = actor(None);
    a.on_writers_gone();
    assert!(!a.takes_data());
    assert!(a.takes_commands());
}

#[test]
fn a_full_queue_takes_no_data() {
    let mut a = actor(None);
    for _ in 0..64 {
        assert!(a.takes_data());
        a.on_data(Bytes::from_static(b"x")).unwrap();
    }
    assert!(!a.takes_data());
    assert!(!a.has_room());
    let refused = a.on_data(Bytes::from(vec![0u8; 1376 * 129])).unwrap_err();
    assert_eq!(refused.describe(), "Buffer error: Message too large for window");
}

#[test]
fn loss_is_simulated() {
    assert!(survives(None, 0));
    assert!(!survives(Some(1), 0));
    assert!(survives(Some(1), 1 << 40));
    assert!(!survives(Some(0x100_0000), u64::MAX));
    assert!(survives(Some(0), 0));
    let packets = vec![Bytes::from_static(b"a"), Bytes::from_static(b"b")];
    assert_eq!(thin_out(packets.clone(), None), packets);
    assert!(thin_out(packets.clone(), Some(0x100_0000)).is_empty());
    assert_eq!(thin_out(packets.clone(), Some(0)), packets);
    // About half of many.
    let many: Vec<Bytes> = (0..1000).map(|_| Bytes::from_static(b"x")).collect();
    let left = thin_out(many, Some(0x80_0000)).len();
    assert!(left > 300 && left < 700);
}

#[test]
fn closing_outlasts_every_event() {
    let mut a = actor(None);
    let _ = a.on_close(vec![Bytes::from_static(b"tail")], at(5));
    // Neither time, nor packets, nor the end of data puts the deadline off.
    let _ = sent(a.on_timer(at(1_000)));
    let mut b = actor(None);
    b.on_data(Bytes::from_static(b"hi")).unwrap();
    for packet in sent(b.on_data_end(at(1_500))) {
        let _ = sent(a.on_packet(packet, at(1_600)));
    }
    assert_eq!(&a.take_message().unwrap()[..], b"hi");
    let _ = sent(a.on_data_end(at(2_000)));
    a.on_writers_gone();
    assert!(!a.takes_commands());
    assert!(!a.takes_data());
    assert!(a.finish(at(5 + LINGER_MS - 1)).is_none());
    assert!(a.finish(at(5 + LINGER_MS)).is_some());
}
