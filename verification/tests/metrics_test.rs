use kcp_tokio::metrics::{
    format_metrics, format_traffic, ConnectionMonitor, GlobalMetrics, MetricsSnapshot,
};
use kcp_tokio::protocol::KcpStats;

#[test]
fn test_global_metrics() {
    let mut metrics = GlobalMetrics::default();

    metrics.connection_created();
    assert_eq!(metrics.active_connections, 1);

    metrics.connection_closed();
    assert_eq!(metrics.active_connections, 0);
}

#[test]
fn metrics_test_global_metrics() {
    let mut metrics = GlobalMetrics::default();

    metrics.connection_created();
    assert_eq!(metrics.active_connections, 1);

    metrics.connection_closed();
    assert_eq!(metrics.active_connections, 0);
    assert_eq!(metrics.connections_created, 1);
}

#[test]
fn test_connection_monitor() {
    let mut monitor = ConnectionMonitor::new(0);

    monitor.update_rtt(100, 1);
    monitor.update_rtt(150, 2);
    monitor.update_rtt(75, 3);

    let stats = monitor.rtt_stats(31);
    assert_eq!(stats.minimum, 75);
    assert_eq!(stats.maximum, 150);
    assert_eq!(stats.sample_count, 3);
    assert_eq!(stats.current, 75);
    assert_eq!(stats.average, 108);
    assert_eq!(stats.jitter, 31);
    assert_eq!(monitor.samples(), &vec![100, 150, 75]);
}

#[test]
fn stats_accumulate() {
    let mut metrics = GlobalMetrics::default();
    let stats = KcpStats {
        bytes_sent: 10,
        bytes_received: 20,
        packets_sent: 3,
        packets_received: 4,
        retransmissions: 1,
        ..KcpStats::default()
    };
    metrics.update_from_stats(&stats);
    metrics.update_from_stats(&stats);
    let s = metrics.snapshot();
    assert_eq!(s.total_bytes_sent, 20);
    assert_eq!(s.total_bytes_received, 40);
    assert_eq!(s.total_packets_sent, 6);
    assert_eq!(s.total_packets_received, 8);
    assert_eq!(s.total_retransmissions, 2);
    assert_eq!(s.loss_parts(), Some((2, 6)));
    assert_eq!(s.hit_parts(), None);
    assert_eq!(s.total_bytes(), 60);
}

#[test]
fn counters_wrap() {
    let mut metrics = GlobalMetrics::default();
    metrics.connection_closed();
    assert_eq!(metrics.active_connections, usize::MAX);
    metrics.connection_created();
    assert_eq!(metrics.active_connections, 0);
    metrics.buffer_pool_hits = u64::MAX;
    metrics.buffer_pool_hit();
    assert_eq!(metrics.buffer_pool_hits, 0);
    metrics.buffer_pool_miss();
    assert_eq!(metrics.snapshot().hit_parts(), Some((0, 1)));
}

#[test]
fn metrics_read_well() {
    let s = MetricsSnapshot {
        connections_created: 12,
        active_connections: 3,
        total_bytes_sent: 4567,
        total_bytes_received: 890,
        total_packets_sent: 100,
        total_packets_received: 99,
        total_retransmissions: 5,
        buffer_pool_hits: 8,
        buffer_pool_misses: 2,
    };
    assert_eq!(
        format_traffic(&s, "5.00"),
        "KCP Metrics:\nConnections: 12 created, 3 active\nTraffic: 4567 bytes sent, 890 bytes \
         received\nPackets: 100 sent, 99 received\nRetransmissions: 5 (loss rate: 5.00%)"
    );
    assert_eq!(
        format_metrics(&s, "5.00", "80.0"),
        "KCP Metrics:\nConnections: 12 created, 3 active\nTraffic: 4567 bytes sent, 890 bytes \
         received\nPackets: 100 sent, 99 received\nRetransmissions: 5 (loss rate: 5.00%)\nBuffer \
         Pool: 80.0% hit rate (8 hits, 2 misses)"
    );
}

#[test]
fn monitor_keeps_the_last_thousand_samples() {
    let mut monitor = ConnectionMonitor::new(10);
    for i in 0..1005u32 {
        monitor.update_rtt(i + 1, 20 + i as u64);
    }
    let stats = monitor.rtt_stats(0);
    assert_eq!(stats.sample_count, 1000);
    assert_eq!(monitor.samples()[0], 6);
    assert_eq!(stats.minimum, 1);
    assert_eq!(stats.maximum, 1005);
    assert_eq!(stats.current, 1005);
    assert_eq!(stats.average, 505);
    assert_eq!(monitor.uptime(2000), 1990);
    assert_eq!(monitor.idle_time(2000), 2000 - 1024);
    assert_eq!(monitor.uptime(5), 0);
}

#[test]
fn monitor_without_samples() {
    let monitor = ConnectionMonitor::new(0);
    let stats = monitor.rtt_stats(7);
    assert_eq!(stats.current, 0);
    assert_eq!(stats.average, 0);
    assert_eq!(stats.minimum, 0);
    assert_eq!(stats.maximum, 0);
    assert_eq!(stats.jitter, 0);
    assert_eq!(stats.sample_count, 0);
}

#[test]
fn samples_are_counted() {
    let mut monitor = ConnectionMonitor::new(0);
    monitor.update_rtt(50, 1);
    let stats = monitor.rtt_stats(0);
    assert_eq!((stats.current, stats.minimum, stats.maximum, stats.sample_count), (50, 50, 50, 1));
    monitor.update_rtt(20, 2);
    monitor.update_rtt(30, 3);
    let stats = monitor.rtt_stats(0);
    assert_eq!((stats.current, stats.minimum, stats.maximum, stats.sample_count), (30, 20, 50, 3));
}
