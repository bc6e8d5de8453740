use bytes::{Bytes, BytesMut};
use kcp_tokio::protocol::constants;
use kcp_tokio::protocol::{
    conv_id_of_bits, current_timestamp, random_conv_id, seq_after, seq_before, time_diff,
    KcpHeader, KcpSegment, KcpStats,
};
use kcp_tokio::clock::{timestamp_of_millis, timestamp_of_reading};

fn header() -> KcpHeader {
    KcpHeader {
        conv: 0x01020304,
        cmd: constants::IKCP_CMD_PUSH,
        frg: 5,
        wnd: 0x0708,
        ts: 0x090a0b0c,
        sn: 0x0d0e0f10,
        una: 0x11121314,
        len: 3,
    }
}

#[test]
fn header_on_the_wire() {
    let mut buf = BytesMut::new();
    header().encode(&mut buf);
    let expected: [u8; 24] = [
        4, 3, 2, 1, 81, 5, 8, 7, 12, 11, 10, 9, 16, 15, 14, 13, 20, 19, 18, 17, 3, 0, 0, 0,
    ];
    assert_eq!(&buf[..], &expected[..]);
    let mut bytes = buf.freeze();
    assert_eq!(KcpHeader::decode(&mut bytes), Some(header()));
    assert_eq!(bytes.len(), 0);
}

#[test]
fn short_headers_are_refused() {
    let mut bytes = Bytes::from(vec![1u8; 23]);
    assert_eq!(KcpHeader::decode(&mut bytes), None);
    assert_eq!(bytes.len(), 23);
}

#[test]
fn segments_round_trip() {
    let mut seg = KcpSegment::push(7, 9, Bytes::from_static(b"abc"));
    seg.header.wnd = 12;
    assert!(seg.is_data());
    assert!(!seg.is_ack());
    assert!(!seg.is_probe());
    assert_eq!(seg.size(), 27);
    let mut buf = BytesMut::new();
    seg.encode(&mut buf);
    assert_eq!(buf.len(), 27);
    let back = KcpSegment::decode(buf.freeze()).unwrap();
    assert_eq!(back.header, seg.header);
    assert_eq!(back.data, seg.data);
    assert_eq!(back.clone().data, back.data);
}

#[test]
fn segments_of_the_wrong_length_are_refused() {
    let seg = KcpSegment::push(7, 9, Bytes::from_static(b"abc"));
    let mut buf = BytesMut::new();
    seg.encode(&mut buf);
    let whole = buf.freeze();
    assert!(KcpSegment::decode(whole.slice(0..26)).is_none());
    let mut long = whole.to_vec();
    long.push(0);
    assert!(KcpSegment::decode(Bytes::from(long)).is_none());
}

#[test]
fn acknowledgements_carry_number_and_time() {
    let seg = KcpSegment::ack(1, 2, 3);
    assert!(seg.is_ack());
    assert_eq!((seg.header.conv, seg.header.sn, seg.header.ts), (1, 2, 3));
    assert_eq!(seg.header.len, 0);
    assert_eq!(seg.data.len(), 0);
    let probe = KcpSegment::new(1, constants::IKCP_CMD_WASK, Bytes::new());
    assert!(probe.is_probe());
}

#[test]
fn commands_have_names() {
    let name = |cmd: u8| KcpHeader::new_at(1, cmd, 0).cmd_str();
    assert_eq!(name(81), "PUSH");
    assert_eq!(name(82), "ACK");
    assert_eq!(name(83), "WASK");
    assert_eq!(name(84), "WINS");
    assert_eq!(name(0), "UNKNOWN");
    assert_eq!(KcpHeader::SIZE, 24);
}

#[test]
fn numbers_wrap_around() {
    assert_eq!(time_diff(5, 3), 2);
    assert_eq!(time_diff(3, 5), -2);
    assert_eq!(time_diff(1, u32::MAX), 2);
    assert!(seq_before(u32::MAX, 0));
    assert!(seq_after(0, u32::MAX));
    assert!(!seq_before(4, 4));
    assert!(!seq_after(4, 4));
    assert!(seq_before(0, 0x8000_0000));
    assert!(!seq_after(0x8000_0000, 0));
}

#[test]
fn drawn_conversations_are_not_zero() {
    for _ in 0..100 {
        assert_ne!(random_conv_id(), 0);
    }
    assert_ne!(random_conv_id(), random_conv_id().wrapping_add(1).wrapping_sub(1) ^ 0xffff_ffff);
    assert_eq!(conv_id_of_bits(0x1_2345_6789), 0x2345_6789);
}

#[test]
fn timestamps_are_the_low_bits() {
    assert_eq!(timestamp_of_millis(0x1_0000_0005), 5);
    assert_eq!(timestamp_of_reading(Some(0x1_0000_0007)), 7);
    assert_eq!(timestamp_of_reading(None), 0);
    let a = current_timestamp();
    let b = current_timestamp();
    assert!(time_diff(b, a) >= 0);
    assert!(time_diff(b, a) < 10_000);
    assert_ne!(a, 0);
}

#[test]
fn statistics_start_at_zero() {
    let s = KcpStats::default();
    assert_eq!(s.bytes_sent, 0);
    assert_eq!(s.rto, 0);
    assert_eq!(s.cwnd, 0);
}
