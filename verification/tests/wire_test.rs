use bytes::{Bytes, BytesMut};
use kcp_tokio::buffer_pool::{
    buffer_pool_stats, try_put_buffer, BufferPool, BufferPools,
};
use kcp_tokio::config::KcpConfig;
use kcp_tokio::engine::KcpEngine;
use kcp_tokio::protocol::{constants, KcpHeader, KcpSegment};

fn headers(datagram: &Bytes) -> Vec<KcpHeader> {
    let mut rest = datagram.clone();
    let mut all = Vec::new();
    while let Some(header) = KcpHeader::decode(&mut rest) {
        rest = rest.slice(header.len as usize..);
        all.push(header);
    }
    assert!(rest.is_empty());
    all
}

#[test]
fn datagrams_fit_the_transmission_unit() {
    let config = KcpConfig::new().turbo_mode().mtu(200).window_size(64, 64);
    let mut engine = KcpEngine::new_at(3, config.into(), 0);
    for size in [1usize, 500, 176, 30, 177] {
        engine.send(Bytes::from(vec![7u8; size])).unwrap();
    }
    engine.flush_at(5).unwrap();
    let datagrams = engine.drain_output();
    let mut numbers = Vec::new();
    let mut total = 0;
    for datagram in &datagrams {
        assert!(datagram.len() <= 200);
        for header in headers(datagram) {
            assert_eq!(header.conv, 3);
            assert_eq!(header.cmd, constants::IKCP_CMD_PUSH);
            assert_eq!(header.ts, 5);
            assert_eq!(header.wnd, 64);
            assert_eq!(header.una, 0);
            assert!(header.len <= 176);
            numbers.push(header.sn);
            total += header.len;
        }
    }
    assert_eq!(numbers, (0..8).collect::<Vec<u32>>());
    assert_eq!(total, 1 + 500 + 176 + 30 + 177);
    assert_eq!(engine.stats().packets_sent, datagrams.len() as u64);
}

#[test]
fn acknowledgements_tell_the_window() {
    let config = KcpConfig::new().turbo_mode().window_size(32, 10);
    let mut a = KcpEngine::new_at(3, config.into(), 0);
    let mut b = KcpEngine::new_at(3, config.into(), 0);
    for i in 0..4u8 {
        a.send(Bytes::from(vec![i; 5])).unwrap();
    }
    a.flush_at(40).unwrap();
    for datagram in a.drain_output() {
        b.input_at(datagram, 50).unwrap();
    }
    b.flush_at(60).unwrap();
    let answer = b.drain_output();
    assert_eq!(answer.len(), 1);
    let acks = headers(&answer[0]);
    assert_eq!(acks.len(), 4);
    for (i, ack) in acks.iter().enumerate() {
        assert_eq!(ack.cmd, constants::IKCP_CMD_ACK);
        assert_eq!(ack.sn, i as u32);
        assert_eq!(ack.ts, 40);
        // Four messages wait to be taken, and the fifth is expected.
        assert_eq!(ack.wnd, 6);
        assert_eq!(ack.una, 4);
    }
    // Segments are kept until then, and no longer.
    assert!(a.has_unsent_data());
    a.input_at(answer[0].clone(), 70).unwrap();
    assert!(!a.has_unsent_data());
    assert_eq!(a.check_at(70), u32::MAX);
}

#[test]
fn a_closed_window_holds_data_and_is_probed() {
    let config = KcpConfig::new().turbo_mode();
    let mut a = KcpEngine::new_at(3, config.into(), 0);
    // The peer says that it has no room.
    let mut wins = KcpSegment::new_at(3, constants::IKCP_CMD_WINS, 0, Bytes::new());
    wins.header.wnd = 0;
    let mut buf = BytesMut::new();
    wins.encode(&mut buf);
    a.input_at(buf.freeze(), 10).unwrap();
    a.send(Bytes::from_static(b"later")).unwrap();
    a.flush_at(20).unwrap();
    assert!(a.drain_output().is_empty());
    a.flush_at(7019).unwrap();
    assert!(a.drain_output().is_empty());
    a.flush_at(7020).unwrap();
    let probe = a.drain_output();
    assert_eq!(probe.len(), 1);
    assert_eq!(headers(&probe[0])[0].cmd, constants::IKCP_CMD_WASK);
    // The next probe is half as long again away.
    a.flush_at(7020 + 10499).unwrap();
    assert!(a.drain_output().is_empty());
    a.flush_at(7020 + 10500).unwrap();
    assert_eq!(a.drain_output().len(), 1);
    // The peer has room.
    wins.header.wnd = 8;
    let mut buf = BytesMut::new();
    wins.encode(&mut buf);
    a.input_at(buf.freeze(), 20000).unwrap();
    a.flush_at(20000).unwrap();
    let data = a.drain_output();
    assert_eq!(headers(&data[0])[0].cmd, constants::IKCP_CMD_PUSH);
}

#[test]
fn the_timeout_is_bounded() {
    let answer = |engine: &mut KcpEngine, sn: u32, ts: u32, now: u32| {
        let mut ack = KcpSegment::ack(3, sn, ts);
        ack.header.wnd = 128;
        let mut buf = BytesMut::new();
        ack.encode(&mut buf);
        engine.input_at(buf.freeze(), now).unwrap();
        engine.stats().rto
    };
    let mut slow = KcpEngine::new_at(3, KcpConfig::new().into(), 0);
    assert_eq!(answer(&mut slow, 0, 0, 1_000_000), 60_000);
    let mut quick = KcpEngine::new_at(3, KcpConfig::new().fast_mode().into(), 0);
    assert_eq!(answer(&mut quick, 0, 5, 5), 32);
    let mut normal = KcpEngine::new_at(3, KcpConfig::new().into(), 0);
    // 1 plus four times the interval of 40.
    assert_eq!(answer(&mut normal, 0, 5, 6), 161);
}

#[test]
fn congestion_shrinks_the_window() {
    let mut engine = KcpEngine::new_at(3, KcpConfig::new().window_size(32, 128).into(), 0);
    for _ in 0..32 {
        engine.send(Bytes::from(vec![0u8; 1000])).unwrap();
    }
    engine.flush_at(0).unwrap();
    assert_eq!(engine.stats().cwnd, 32);
    assert_eq!(engine.stats().snd_buf_size, 32);
    // A timeout brings it down to one segment.
    engine.flush_at(1000).unwrap();
    assert_eq!(engine.stats().cwnd, 1);
    assert_eq!(engine.stats().retransmissions, 32);
}

#[test]
fn pools_hand_out_the_oldest_buffer() {
    let mut pool = BufferPool::new(8, 1024);
    let first = BytesMut::with_capacity(600);
    let second = BytesMut::with_capacity(1800);
    let (a, b) = (first.capacity(), second.capacity());
    assert!(a < b);
    pool.try_put(first);
    pool.try_put(second);
    assert_eq!(pool.try_get().capacity(), a);
    assert_eq!(pool.try_get().capacity(), b);
    // New ones after that.
    assert!(pool.try_get().capacity() >= 1024);
    assert_eq!(pool.stats(), (2, 0));
}

#[test]
fn returned_buffers_go_to_the_tier_that_fits() {
    let mut pools = BufferPools::new();
    try_put_buffer(&mut pools, BytesMut::with_capacity(1400));
    assert_eq!(buffer_pool_stats(&pools)[1], ("medium", 0, 1));
    try_put_buffer(&mut pools, BytesMut::with_capacity(8192));
    assert_eq!(buffer_pool_stats(&pools)[2], ("large", 0, 1));
    try_put_buffer(&mut pools, BytesMut::with_capacity(65536));
    assert_eq!(buffer_pool_stats(&pools)[3], ("jumbo", 0, 1));
    try_put_buffer(&mut pools, BytesMut::with_capacity(100));
    assert_eq!(buffer_pool_stats(&pools)[0], ("small", 0, 0));
}
