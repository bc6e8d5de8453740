use kcp_tokio::error::{ConnectionError, IoErrorKind, KcpCoreError, KcpError};

#[test]
fn engine_errors_read_well() {
    assert_eq!(KcpCoreError::protocol("bad").describe(), "Protocol error: bad");
    assert_eq!(KcpCoreError::buffer("full").describe(), "Buffer error: full");
    assert_eq!(KcpCoreError::connection_lost().describe(), "Connection lost");
    assert!(KcpCoreError::connection_lost().is_fatal());
    assert!(!KcpCoreError::buffer("full").is_fatal());
    assert!(!KcpCoreError::protocol("bad").is_fatal());
}

#[test]
fn engine_errors_convert() {
    assert_eq!(KcpError::from(KcpCoreError::protocol("bad")).describe(), "Protocol error: bad");
    assert_eq!(KcpError::from(KcpCoreError::buffer("full")).describe(), "Buffer error: full");
    let lost = KcpError::from(KcpCoreError::connection_lost());
    assert_eq!(lost.describe(), "Connection error: connection lost");
    assert!(lost.is_fatal());
    assert!(lost.is_recoverable());
    assert!(lost.is_connection_error());
    assert!(!lost.is_closed());
}

#[test]
fn errors_read_well() {
    assert_eq!(KcpError::io(IoErrorKind::Other, "disk").describe(), "I/O error: disk");
    assert_eq!(KcpError::protocol("p").describe(), "Protocol error: p");
    assert_eq!(KcpError::timeout(1500).describe(), "Operation timed out after 1500ms");
    assert_eq!(KcpError::timeout(0).describe(), "Operation timed out after 0ms");
    assert_eq!(
        KcpError::timeout(u64::MAX).describe(),
        "Operation timed out after 18446744073709551615ms"
    );
    assert_eq!(KcpError::buffer("b").describe(), "Buffer error: b");
    assert_eq!(KcpError::config("c").describe(), "Configuration error: c");
    assert_eq!(KcpError::session("s").describe(), "Session error: s");
    assert_eq!(KcpError::internal("i").describe(), "Internal error: i");
    let kinds = [
        (ConnectionError::Closed, "connection closed"),
        (ConnectionError::Reset, "connection reset by peer"),
        (ConnectionError::Refused, "connection refused"),
        (ConnectionError::Lost, "connection lost"),
        (ConnectionError::InvalidConv, "invalid conversation ID"),
        (ConnectionError::HandshakeFailed, "handshake failed"),
        (ConnectionError::Timeout, "connection timed out"),
        (ConnectionError::NotConnected, "not connected"),
    ];
    for (kind, text) in kinds {
        assert_eq!(kind.describe(), text);
        assert_eq!(KcpError::connection(kind).describe(), format!("Connection error: {text}"));
    }
}

#[test]
fn errors_are_sorted() {
    assert!(KcpError::timeout(1).is_recoverable());
    assert!(KcpError::buffer("b").is_recoverable());
    assert!(!KcpError::config("c").is_recoverable());
    for kind in [IoErrorKind::WouldBlock, IoErrorKind::TimedOut, IoErrorKind::Interrupted] {
        assert!(KcpError::io(kind, "").is_recoverable());
        assert!(!KcpError::io(kind, "").is_closed());
    }
    for kind in [
        IoErrorKind::BrokenPipe,
        IoErrorKind::ConnectionAborted,
        IoErrorKind::ConnectionRefused,
        IoErrorKind::ConnectionReset,
        IoErrorKind::UnexpectedEof,
    ] {
        assert!(KcpError::io(kind, "").is_closed());
        assert!(!KcpError::io(kind, "").is_recoverable());
    }
    assert!(!KcpError::io(IoErrorKind::Other, "").is_closed());
    assert!(KcpError::internal("i").is_fatal());
    assert!(!KcpError::session("s").is_fatal());
    for kind in [ConnectionError::Closed, ConnectionError::Reset] {
        assert!(KcpError::connection(kind).is_fatal());
        assert!(KcpError::connection(kind).is_closed());
    }
    assert!(KcpError::connection(ConnectionError::Refused).is_closed());
    assert!(!KcpError::connection(ConnectionError::Refused).is_fatal());
    assert!(!KcpError::protocol("p").is_connection_error());
}
