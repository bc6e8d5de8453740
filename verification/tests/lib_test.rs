use kcp_tokio::{PROTOCOL_VERSION, VERSION};

#[test]
fn test_version() {
    assert!(!VERSION.is_empty());
    assert_eq!(PROTOCOL_VERSION, 1);
}

#[test]
fn lib_test_version() {
    assert!(VERSION.len() > 0);
    assert_eq!(PROTOCOL_VERSION, 1);
}
