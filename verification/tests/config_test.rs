use kcp_tokio::config::{KcpConfig, KcpCoreConfig, NodeDelayConfig, LOSS_SCALE};

#[test]
fn modes() {
    let n = NodeDelayConfig::normal();
    assert_eq!((n.nodelay, n.interval, n.resend, n.no_congestion_control), (false, 40, 0, false));
    let f = NodeDelayConfig::fast();
    assert_eq!((f.nodelay, f.interval, f.resend, f.no_congestion_control), (true, 8, 2, false));
    let t = NodeDelayConfig::turbo();
    assert_eq!((t.nodelay, t.interval, t.resend, t.no_congestion_control), (true, 4, 1, true));
    let g = NodeDelayConfig::gaming();
    assert_eq!((g.nodelay, g.interval, g.resend, g.no_congestion_control), (true, 3, 1, true));
    assert_eq!(NodeDelayConfig::custom(true, 4, 1, true), t);
}

#[test]
fn presets() {
    let g = KcpConfig::gaming();
    assert_eq!(g.nodelay.interval, 3);
    assert_eq!((g.snd_wnd, g.rcv_wnd, g.mtu), (64, 128, 1200));
    assert_eq!((g.connect_timeout, g.keep_alive), (3_000, Some(10_000)));
    let r = KcpConfig::realtime();
    assert_eq!(r.nodelay.interval, 8);
    assert_eq!((r.snd_wnd, r.rcv_wnd, r.mtu), (64, 64, 1200));
    let f = KcpConfig::file_transfer();
    assert!(f.stream_mode);
    assert_eq!((f.snd_wnd, f.rcv_wnd, f.mtu), (256, 256, 1400));
    assert_eq!((f.connect_timeout, f.keep_alive), (30_000, Some(60_000)));
    // One packet in ten.
    let t = KcpConfig::testing(LOSS_SCALE / 10 + 1);
    assert_eq!(t.simulate_packet_loss, Some(LOSS_SCALE / 10 + 1));
    assert_eq!(t.connect_timeout, 5_000);
    assert_eq!(KcpConfig::testing(LOSS_SCALE + 1).simulate_packet_loss, None);
    for c in [g, r, f, t, KcpConfig::new(), KcpConfig::default()] {
        assert!(c.validate().is_ok());
    }
}

#[test]
fn builders_change_one_thing() {
    let c = KcpConfig::new()
        .fast_mode()
        .window_size(128, 129)
        .mtu(1300)
        .connect_timeout(10_000)
        .keep_alive(Some(31_000))
        .stream_mode(true)
        .max_retries(7)
        .socket_buffer_size(4096)
        .simulate_packet_loss(5);
    assert_eq!((c.snd_wnd, c.rcv_wnd, c.mtu), (128, 129, 1300));
    assert_eq!((c.connect_timeout, c.keep_alive), (10_000, Some(31_000)));
    assert!(c.stream_mode);
    assert_eq!(c.max_retries, 7);
    assert_eq!(c.socket_buffer_size, Some(4096));
    assert_eq!(c.simulate_packet_loss, Some(5));
    assert_eq!(c.send_window(1).recv_window(2).snd_wnd, 1);
    assert_eq!(c.recv_window(2).rcv_wnd, 2);
    assert_eq!(c.normal_mode().nodelay, NodeDelayConfig::normal());
    assert_eq!(c.turbo_mode().nodelay, NodeDelayConfig::turbo());
    assert_eq!(c.nodelay_config(NodeDelayConfig::gaming()).nodelay.interval, 3);
    let core: KcpCoreConfig = c.into();
    assert_eq!((core.mtu, core.snd_wnd, core.rcv_wnd), (1300, 128, 129));
    assert_eq!((core.max_retries, core.stream_mode), (7, true));
    assert_eq!(core.nodelay, NodeDelayConfig::fast());
}

#[test]
fn invalid_configurations_are_refused() {
    let text = |c: KcpConfig| c.validate().unwrap_err().describe();
    assert_eq!(text(KcpConfig::new().mtu(63)), "Configuration error: MTU must be between 64 and 65535");
    assert_eq!(text(KcpConfig::new().mtu(65536)), "Configuration error: MTU must be between 64 and 65535");
    assert_eq!(text(KcpConfig::new().send_window(0)), "Configuration error: Window sizes must be greater than 0");
    assert_eq!(text(KcpConfig::new().recv_window(0)), "Configuration error: Window sizes must be greater than 0");
    let still = NodeDelayConfig::custom(false, 0, 0, false);
    assert_eq!(
        text(KcpConfig::new().nodelay_config(still)),
        "Configuration error: Update interval must be greater than 0"
    );
    assert_eq!(text(KcpConfig::new().max_retries(0)), "Configuration error: Max retries must be greater than 0");
    assert!(KcpConfig::new().mtu(64).validate().is_ok());
    assert!(KcpConfig::new().mtu(65535).validate().is_ok());
}
