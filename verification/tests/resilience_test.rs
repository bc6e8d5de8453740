//! Packet loss recovery, out-of-order delivery, large messages and sustained throughput.
//!
//! Loss and order are drawn from a fixed sequence of numbers, and time is counted by hand.

use bytes::Bytes;
use kcp_tokio::config::KcpConfig;
use kcp_tokio::engine::KcpEngine;

struct Draws(u64);

impl Draws {
    fn next(&mut self) -> u64 {
        self.0 = self.0.wrapping_mul(6364136223846793005).wrapping_add(1442695040888963407);
        self.0 >> 33
    }

    fn lose(&mut self, percent: u64) -> bool {
        self.next() % 100 < percent
    }

    fn shuffle(&mut self, packets: &mut Vec<Bytes>) {
        let mut i = packets.len();
        while i > 1 {
            let j = (self.next() % i as u64) as usize;
            i -= 1;
            packets.swap(i, j);
        }
    }
}

fn transfer(
    src: &mut KcpEngine,
    dst: &mut KcpEngine,
    now: u32,
    draws: &mut Draws,
    loss: u64,
    reorder: bool,
) {
    let mut packets = src.drain_output();
    if reorder {
        draws.shuffle(&mut packets);
    }
    for packet in packets {
        if !draws.lose(loss) {
            let _ = dst.input_at(packet, now);
        }
    }
}

fn run_rounds(
    kcp1: &mut KcpEngine,
    kcp2: &mut KcpEngine,
    now: u32,
    draws: &mut Draws,
    rounds: usize,
    loss: u64,
    reorder: bool,
    sink: Option<&mut Vec<Bytes>>,
) {
    let mut sink = sink;
    for _ in 0..rounds {
        let _ = kcp1.update_at(now);
        let _ = kcp1.flush_at(now);
        transfer(kcp1, kcp2, now, draws, loss, reorder);

        if let Some(sink) = sink.as_mut() {
            while let Ok(Some(msg)) = kcp2.recv() {
                sink.push(msg);
            }
        }

        let _ = kcp2.update_at(now);
        let _ = kcp2.flush_at(now);
        transfer(kcp2, kcp1, now, draws, loss, reorder);
    }
}

fn drain_recv(engine: &mut KcpEngine) -> Vec<Bytes> {
    let mut msgs = Vec::new();
    while let Ok(Some(msg)) = engine.recv() {
        msgs.push(msg);
    }
    msgs
}

#[test]
fn test_packet_loss_recovery() {
    let config = KcpConfig::new().turbo_mode().window_size(64, 64);
    let mut kcp1 = KcpEngine::new_at(0xAAAA0001, config.into(), 0);
    let mut kcp2 = KcpEngine::new_at(0xAAAA0001, config.into(), 0);
    let mut draws = Draws(6);

    kcp1.start().unwrap();
    kcp2.start().unwrap();

    let messages: Vec<Vec<u8>> = (0..10)
        .map(|i| format!("loss-test-message-{:04}", i).into_bytes())
        .collect();

    for msg in &messages {
        kcp1.send(Bytes::from(msg.clone())).unwrap();
    }
    kcp1.flush_at(0).unwrap();

    let mut now = 0;
    for _ in 0..30 {
        run_rounds(&mut kcp1, &mut kcp2, now, &mut draws, 30, 30, false, None);
        now += 50;
    }

    let received = drain_recv(&mut kcp2);
    assert_eq!(
        received.len(),
        messages.len(),
        "Expected {} messages, got {} (some lost and not retransmitted)",
        messages.len(),
        received.len(),
    );

    for (i, msg) in received.iter().enumerate() {
        assert_eq!(
            msg.as_ref(),
            messages[i].as_slice(),
            "Message {} content mismatch",
            i,
        );
    }

    // Retransmissions did occur, by timeout or by later acknowledgements.
    let stats = kcp1.stats();
    assert!(
        stats.retransmissions > 0
            || stats.fast_retransmissions > 0
            || stats.packets_sent > messages.len() as u64,
        "Expected retransmissions: rto={}, fast={}, sent={}",
        stats.retransmissions,
        stats.fast_retransmissions,
        stats.packets_sent,
    );
}

#[test]
fn retransmissions_are_counted() {
    let config = KcpConfig::new().turbo_mode();
    let mut kcp1 = KcpEngine::new_at(1, config.into(), 0);
    let mut kcp2 = KcpEngine::new_at(1, config.into(), 0);
    for i in 0..10u8 {
        kcp1.send(Bytes::from(vec![i; 1000])).unwrap();
    }
    kcp1.flush_at(0).unwrap();
    // Each datagram holds one segment; lose the first.
    let packets = kcp1.drain_output();
    assert_eq!(packets.len(), 10);
    for packet in packets.into_iter().skip(1) {
        kcp2.input_at(packet, 10).unwrap();
    }
    assert!(kcp2.recv().unwrap().is_none());
    kcp2.flush_at(10).unwrap();
    for packet in kcp2.drain_output() {
        kcp1.input_at(packet, 20).unwrap();
    }
    // The later ones have overtaken it.
    kcp1.flush_at(20).unwrap();
    assert_eq!(kcp1.stats().fast_retransmissions, 1);
    assert_eq!(kcp1.stats().retransmissions, 0);
    for packet in kcp1.drain_output() {
        kcp2.input_at(packet, 30).unwrap();
    }
    assert_eq!(drain_recv(&mut kcp2).len(), 10);
    // Without an answer it is sent again when its time has run out.
    kcp1.flush_at(10_000).unwrap();
    assert_eq!(kcp1.stats().retransmissions, 1);
    assert!(!kcp1.is_dead());
}

#[test]
fn test_out_of_order_delivery() {
    let config = KcpConfig::new().fast_mode().mtu(100);
    let mut kcp1 = KcpEngine::new_at(0xBBBB0001, config.into(), 0);
    let mut kcp2 = KcpEngine::new_at(0xBBBB0001, config.into(), 0);
    let mut draws = Draws(7);

    kcp1.start().unwrap();
    kcp2.start().unwrap();

    let message: Vec<u8> = (0u8..=255).cycle().take(300).collect();
    kcp1.send(Bytes::from(message.clone())).unwrap();
    kcp1.flush_at(0).unwrap();

    transfer(&mut kcp1, &mut kcp2, 0, &mut draws, 0, true);
    let _ = kcp2.update_at(0);

    run_rounds(&mut kcp1, &mut kcp2, 0, &mut draws, 20, 0, false, None);

    let received = drain_recv(&mut kcp2);
    assert_eq!(received.len(), 1, "Expected exactly 1 reassembled message");
    assert_eq!(
        received[0].as_ref(),
        message.as_slice(),
        "Reassembled message content mismatch",
    );
}

#[test]
fn test_loss_and_reorder_combined() {
    let config = KcpConfig::new().turbo_mode().mtu(200).window_size(64, 64);
    let mut kcp1 = KcpEngine::new_at(0xCCCC0001, config.into(), 0);
    let mut kcp2 = KcpEngine::new_at(0xCCCC0001, config.into(), 0);
    let mut draws = Draws(3);

    kcp1.start().unwrap();
    kcp2.start().unwrap();

    let messages: Vec<Vec<u8>> = (0..5)
        .map(|i| format!("combo-msg-{:04}-{}", i, "x".repeat(80)).into_bytes())
        .collect();

    for msg in &messages {
        kcp1.send(Bytes::from(msg.clone())).unwrap();
    }
    kcp1.flush_at(0).unwrap();

    let mut received = Vec::new();
    let mut now = 0;
    for _ in 0..40 {
        run_rounds(&mut kcp1, &mut kcp2, now, &mut draws, 30, 30, true, Some(&mut received));
        now += 50;
    }
    received.extend(drain_recv(&mut kcp2));

    assert_eq!(
        received.len(),
        messages.len(),
        "Expected {} messages under loss+reorder, got {}",
        messages.len(),
        received.len(),
    );

    for (i, msg) in received.iter().enumerate() {
        assert_eq!(msg.as_ref(), messages[i].as_slice());
    }
}

#[test]
fn test_large_message_delivery() {
    let config = KcpConfig::new().fast_mode().window_size(128, 128);
    let mut kcp1 = KcpEngine::new_at(0xDDDD0001, config.into(), 0);
    let mut kcp2 = KcpEngine::new_at(0xDDDD0001, config.into(), 0);
    let mut draws = Draws(5);

    kcp1.start().unwrap();
    kcp2.start().unwrap();

    let large_msg: Vec<u8> = (0..65536).map(|i| (i % 256) as u8).collect();
    kcp1.send(Bytes::from(large_msg.clone())).unwrap();
    kcp1.flush_at(0).unwrap();

    run_rounds(&mut kcp1, &mut kcp2, 0, &mut draws, 100, 0, false, None);

    let received = drain_recv(&mut kcp2);
    assert_eq!(received.len(), 1, "Expected 1 reassembled large message");
    assert_eq!(
        received[0].len(),
        large_msg.len(),
        "Large message size mismatch: expected {}, got {}",
        large_msg.len(),
        received[0].len(),
    );
    assert_eq!(received[0].as_ref(), large_msg.as_slice());
}

#[test]
fn test_sustained_throughput() {
    let config = KcpConfig::new().fast_mode().window_size(32, 128);
    let mut kcp1 = KcpEngine::new_at(0xEEEE0001, config.into(), 0);
    let mut kcp2 = KcpEngine::new_at(0xEEEE0001, config.into(), 0);
    let mut draws = Draws(9);

    kcp1.start().unwrap();
    kcp2.start().unwrap();

    let msg_count = 100;
    let messages: Vec<Vec<u8>> = (0..msg_count)
        .map(|i| {
            let mut data = vec![0u8; 1024];
            let tag = format!("msg-{:04}", i);
            data[..tag.len()].copy_from_slice(tag.as_bytes());
            data
        })
        .collect();

    for msg in &messages {
        kcp1.send(Bytes::from(msg.clone())).unwrap();
    }
    kcp1.flush_at(0).unwrap();

    let mut received = Vec::new();
    run_rounds(&mut kcp1, &mut kcp2, 0, &mut draws, 500, 0, false, Some(&mut received));
    received.extend(drain_recv(&mut kcp2));

    assert_eq!(
        received.len(),
        msg_count,
        "Expected {} messages, got {} (flow control issue)",
        msg_count,
        received.len(),
    );

    for (i, msg) in received.iter().enumerate() {
        assert_eq!(
            msg.as_ref(),
            messages[i].as_slice(),
            "Message {} content mismatch",
            i,
        );
    }
}

#[test]
fn a_silent_link_is_given_up() {
    let config = KcpConfig::new().max_retries(3);
    let mut engine = KcpEngine::new_at(1, config.into(), 0);
    engine.send(Bytes::from_static(b"anyone?")).unwrap();
    engine.flush_at(0).unwrap();
    engine.flush_at(1_000).unwrap();
    engine.flush_at(10_000).unwrap();
    assert!(!engine.is_dead());
    let lost = engine.flush_at(100_000).unwrap_err();
    assert!(lost.is_fatal());
    assert_eq!(lost.describe(), "Connection lost");
    // The last retransmission was still sent.
    assert_eq!(engine.drain_output().len(), 4);
    assert_eq!(engine.stats().retransmissions, 3);
    assert!(engine.is_dead());
}

#[test]
fn first_transmissions_never_give_the_link_up() {
    for retries in [0, 1] {
        let config = KcpConfig::new().max_retries(retries);
        let mut a = KcpEngine::new_at(1, config.into(), 0);
        let mut b = KcpEngine::new_at(1, config.into(), 0);
        let message = Bytes::from(vec![7u8; 2_000]);
        a.send(message.clone()).unwrap();
        assert!(!a.is_dead());
        a.flush_at(0).unwrap();
        assert!(!a.is_dead());
        let packets = a.drain_output();
        assert_eq!(packets.len(), 2);
        for packet in packets.into_iter().rev() {
            b.input_at(packet, 1).unwrap();
        }
        assert_eq!(b.recv().unwrap(), Some(message));
        assert!(b.recv().unwrap().is_none());
        // The first retransmission is the only one.
        assert!(a.flush_at(10_000).unwrap_err().is_fatal());
        assert!(a.is_dead());
    }
}

#[test]
fn links_are_given_up_after_twenty_retransmissions() {
    let mut a = KcpEngine::new_at(1, KcpConfig::new().into(), 0);
    a.send(Bytes::from_static(b"x")).unwrap();
    let mut now = 0;
    for _ in 0..20 {
        a.flush_at(now).unwrap();
        now = now.wrapping_add(a.check_at(now));
    }
    assert_eq!(a.stats().retransmissions, 19);
    assert!(a.flush_at(now).is_err());
    assert_eq!(a.stats().retransmissions, 20);
    assert!(a.is_dead());
}

#[test]
fn a_full_receiver_closes_its_window_and_opens_it_again() {
    let config = KcpConfig::new().turbo_mode().window_size(64, 4);
    let mut kcp1 = KcpEngine::new_at(1, config.into(), 0);
    let mut kcp2 = KcpEngine::new_at(1, config.into(), 0);
    let mut draws = Draws(2);
    for i in 0..12u8 {
        kcp1.send(Bytes::from(vec![i; 10])).unwrap();
    }
    run_rounds(&mut kcp1, &mut kcp2, 0, &mut draws, 3, 0, false, None);
    // Its window is closed, so nothing new is numbered and a probe waits for its time.
    assert!(kcp1.has_unsent_data());
    let mut got = drain_recv(&mut kcp2);
    assert!(got.len() >= 4);
    let mut now = 0;
    for _ in 0..200 {
        now += 200;
        run_rounds(&mut kcp1, &mut kcp2, now, &mut draws, 1, 0, false, Some(&mut got));
    }
    assert_eq!(got.len(), 12);
    for (i, msg) in got.iter().enumerate() {
        assert_eq!(msg[0] as usize, i);
    }
}

#[test]
fn nothing_is_sent_before_the_deadline() {
    let config = KcpConfig::new();
    let mut engine = KcpEngine::new_at(1, config.into(), 500);
    assert_eq!(engine.check_at(500), u32::MAX);
    engine.send(Bytes::from_static(b"x")).unwrap();
    assert_eq!(engine.check_at(500), 0);
    engine.flush_at(500).unwrap();
    assert_eq!(engine.drain_output().len(), 1);
    // Timeout 200 and an eighth of it.
    assert_eq!(engine.check_at(500), 225);
    engine.flush_at(724).unwrap();
    assert!(engine.drain_output().is_empty());
    engine.flush_at(725).unwrap();
    assert_eq!(engine.drain_output().len(), 1);
    assert_eq!(engine.stats().retransmissions, 1);
}

#[test]
fn clocks_may_wrap_around() {
    let config = KcpConfig::new();
    let start = u32::MAX - 100;
    let mut kcp1 = KcpEngine::new_at(1, config.into(), start);
    let mut kcp2 = KcpEngine::new_at(1, config.into(), start);
    kcp1.send(Bytes::from_static(b"wrap")).unwrap();
    kcp1.flush_at(start).unwrap();
    let _ = kcp1.drain_output();
    kcp1.flush_at(start.wrapping_add(224)).unwrap();
    assert!(kcp1.drain_output().is_empty());
    kcp1.flush_at(start.wrapping_add(225)).unwrap();
    for packet in kcp1.drain_output() {
        kcp2.input_at(packet, start.wrapping_add(230)).unwrap();
    }
    assert_eq!(&kcp2.recv().unwrap().unwrap()[..], b"wrap");
    assert_eq!(kcp2.idle_ms_at(start.wrapping_add(240)), 10);
}

#[test]
fn round_trips_set_the_timeout() {
    let config = KcpConfig::new();
    let mut kcp1 = KcpEngine::new_at(1, config.into(), 0);
    let mut kcp2 = KcpEngine::new_at(1, config.into(), 0);
    let mut now = 0;
    // 300 ms there and back, three times.
    for expected in [(300u32, 150u32, 900u32), (300, 112, 748), (300, 84, 636)] {
        kcp1.send(Bytes::from_static(b"ping")).unwrap();
        kcp1.flush_at(now).unwrap();
        for packet in kcp1.drain_output() {
            kcp2.input_at(packet, now + 150).unwrap();
        }
        kcp2.flush_at(now + 150).unwrap();
        for packet in kcp2.drain_output() {
            kcp1.input_at(packet, now + 300).unwrap();
        }
        let stats = kcp1.stats();
        assert_eq!((stats.rtt, stats.rtt_var, stats.rto), expected);
        now += 1000;
    }
}

#[test]
fn keep_alive_probes_are_answered() {
    let config = KcpConfig::new();
    let mut kcp1 = KcpEngine::new_at(9, config.into(), 0);
    let mut kcp2 = KcpEngine::new_at(9, config.into(), 0);
    assert_eq!(kcp1.idle_ms_at(5000), 5000);
    kcp1.keep_alive_probe_at(5000).unwrap();
    let ask = kcp1.drain_output();
    assert_eq!(ask.len(), 1);
    assert_eq!(ask[0].len(), 24);
    assert_eq!(ask[0][4], 83);
    kcp2.input_at(ask[0].clone(), 5010).unwrap();
    kcp2.flush_at(5010).unwrap();
    let tell = kcp2.drain_output();
    assert_eq!(tell.len(), 1);
    assert_eq!(tell[0][4], 84);
    // The window, in two bytes.
    assert_eq!((tell[0][6], tell[0][7]), (128, 0));
    kcp1.input_at(tell[0].clone(), 5020).unwrap();
    assert_eq!(kcp1.idle_ms_at(5020), 0);
}

#[test]
fn segments_before_a_foreign_one_count() {
    let config = KcpConfig::new();
    let mut kcp1 = KcpEngine::new_at(1, config.into(), 0);
    let mut kcp2 = KcpEngine::new_at(1, config.into(), 0);
    kcp1.send(Bytes::from_static(b"mine")).unwrap();
    kcp1.flush_at(0).unwrap();
    let mut packet = kcp1.drain_output()[0].to_vec();
    let mut foreign = packet.clone();
    foreign[0] = 2;
    packet.extend_from_slice(&foreign);
    let e = kcp2.input_at(Bytes::from(packet), 1).unwrap_err();
    assert_eq!(e.describe(), "Protocol error: Invalid conversation ID");
    assert_eq!(&kcp2.recv().unwrap().unwrap()[..], b"mine");
    assert_eq!(kcp2.stats().packets_received, 0);
    let e = kcp2.input_at(Bytes::from_static(b"short"), 1).unwrap_err();
    assert_eq!(e.describe(), "Protocol error: Packet too small");
}

#[test]
fn repeated_datagrams_are_delivered_once() {
    let config = KcpConfig::new();
    let mut kcp1 = KcpEngine::new_at(1, config.into(), 0);
    let mut kcp2 = KcpEngine::new_at(1, config.into(), 0);
    kcp1.send(Bytes::from_static(b"once")).unwrap();
    kcp1.flush_at(0).unwrap();
    let packet = kcp1.drain_output()[0].clone();
    for _ in 0..5 {
        kcp2.input_at(packet.clone(), 1).unwrap();
    }
    assert_eq!(drain_recv(&mut kcp2).len(), 1);
    kcp2.flush_at(1).unwrap();
    // Each arrival is acknowledged.
    assert_eq!(kcp2.drain_output()[0].len(), 5 * 24);
}

#[test]
fn updates_flush_once_per_interval() {
    let config = KcpConfig::new();
    let mut engine = KcpEngine::new_at(1, config.into(), 1000);
    engine.send(Bytes::from_static(b"a")).unwrap();
    engine.update_at(1039).unwrap();
    assert!(engine.drain_output().is_empty());
    engine.update_at(1040).unwrap();
    assert_eq!(engine.drain_output().len(), 1);
    engine.send(Bytes::from_static(b"b")).unwrap();
    engine.update_at(1079).unwrap();
    assert!(engine.drain_output().is_empty());
    engine.update_at(1080).unwrap();
    assert_eq!(engine.drain_output().len(), 1);
}

#[test]
fn a_round_trip_completes_the_exchange() {
    let config = KcpConfig::new().turbo_mode().mtu(124).window_size(64, 64);
    let mut kcp1 = KcpEngine::new_at(4, config.into(), 0);
    let mut kcp2 = KcpEngine::new_at(4, config.into(), 0);
    let mut draws = Draws(11);
    for i in 0..20u8 {
        kcp1.send(Bytes::from(vec![i; 100])).unwrap();
    }
    kcp1.flush_at(0).unwrap();
    transfer(&mut kcp1, &mut kcp2, 5, &mut draws, 50, true);
    // All answers are lost.
    kcp2.flush_at(6).unwrap();
    let _ = kcp2.drain_output();
    // By now everything is due again.
    kcp1.flush_at(5_000).unwrap();
    for packet in kcp1.drain_output() {
        kcp2.input_at(packet, 5_010).unwrap();
    }
    let got = drain_recv(&mut kcp2);
    assert_eq!(got.len(), 20);
    for (i, message) in got.iter().enumerate() {
        assert_eq!(message[..], vec![i as u8; 100][..]);
    }
    kcp2.flush_at(5_020).unwrap();
    for packet in kcp2.drain_output() {
        kcp1.input_at(packet, 5_030).unwrap();
    }
    assert!(!kcp1.has_unsent_data());
}

#[test]
fn messages_arrive_in_whatever_order_their_datagrams_do() {
    let config = KcpConfig::new().mtu(100).window_size(128, 128);
    let mut a = KcpEngine::new_at(9, config.into(), 0);
    let messages: Vec<Bytes> =
        (1..12u8).map(|i| Bytes::from(vec![i; 30 * usize::from(i)])).collect();
    let mut packets = Vec::new();
    for (i, message) in messages.iter().enumerate() {
        a.send(message.clone()).unwrap();
        a.flush_at(10 * i as u32).unwrap();
        packets.extend(a.drain_output());
    }
    a.keep_alive_probe_at(500).unwrap();
    packets.extend(a.drain_output());
    assert!(packets.len() > messages.len());
    let mut draws = Draws(11);
    let mut all = packets.clone();
    all.extend(packets.iter().step_by(3).cloned());
    draws.shuffle(&mut all);
    let mut b = KcpEngine::new_at(9, config.into(), 0);
    for (i, packet) in all.into_iter().enumerate() {
        b.input_at(packet, 600 + i as u32).unwrap();
    }
    assert_eq!(drain_recv(&mut b), messages);
    assert!(b.recv().unwrap().is_none());
    // Any single datagram of the answer leaves the sender with nothing to wait for.
    b.flush_at(900).unwrap();
    let answer = b.drain_output();
    a.input_at(answer[answer.len() - 1].clone(), 1_000).unwrap();
    assert!(!a.has_unsent_data());
}

#[test]
fn streams_arrive_in_whatever_order_their_datagrams_do() {
    let config = KcpConfig::new().mtu(100).window_size(128, 128).stream_mode(true);
    let mut a = KcpEngine::new_at(9, config.into(), 0);
    let data: Vec<u8> = (0..2_000).map(|i| (i % 251) as u8).collect();
    let mut packets = Vec::new();
    for (i, piece) in data.chunks(33).enumerate() {
        a.send(Bytes::copy_from_slice(piece)).unwrap();
        if i % 4 == 0 {
            a.flush_at(i as u32).unwrap();
        }
    }
    a.flush_at(100).unwrap();
    packets.extend(a.drain_output());
    let mut all = packets.clone();
    all.extend(packets);
    Draws(5).shuffle(&mut all);
    let mut b = KcpEngine::new_at(9, config.into(), 0);
    for packet in all {
        b.input_at(packet, 200).unwrap();
    }
    assert_eq!(drain_recv(&mut b).concat(), data);
}
