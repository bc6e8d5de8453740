//! KCP protocol types, constants, and utilities.
use crate::buffers;
use crate::clock::random_bits;
use crate::endian;
use bytes::{Bytes, BytesMut};
use vstd::prelude::*;

pub mod constants;

pub use crate::clock::current_timestamp;
pub use crate::sequence::{seq_after, seq_before, time_diff};

verus! {

/// Conversation ID type.
pub type ConvId = u32;

/// Sequence number type.
pub type SeqNum = u32;

/// Timestamp type (milliseconds since epoch).
pub type Timestamp = u32;

/// The conversation that a draw of random bits stands for: its low 32 bits.
pub fn conv_id_of_bits(bits: u64) -> (r: ConvId)
    ensures
        r == bits % 0x1_0000_0000,
{
    (bits % 0x1_0000_0000) as u32
}

/// Generate a random conversation ID using OS-entropy-seeded hashing.
/// Avoids 0 since it's reserved for "unassigned" on the server side.
pub fn random_conv_id() -> (r: ConvId)
    ensures
        r != 0,
{
    let mut tries: u64 = 0;
    while tries < u64::MAX
        decreases u64::MAX - tries,
    {
        let id: u32 = conv_id_of_bits(random_bits());
        if id != 0 {
            return id;
        }
        tries = tries + 1;
    }
    1
}

/// KCP segment header structure.
#[derive(Debug, Clone, Copy, PartialEq, Eq, Structural)]
pub struct KcpHeader {
    pub conv: ConvId,
    pub cmd: u8,
    pub frg: u8,
    pub wnd: u16,
    pub ts: Timestamp,
    pub sn: SeqNum,
    pub una: SeqNum,
    pub len: u32,
}

/// The number of four bytes at `at`.
pub open spec fn word_at(s: Seq<u8>, at: int) -> u32 {
    endian::le_value(s.subrange(at, at + 4)) as u32
}

/// The header that the first 24 bytes of `s` spell.
pub open spec fn header_at_front(s: Seq<u8>) -> KcpHeader {
    KcpHeader {
        conv: word_at(s, 0),
        cmd: s[4],
        frg: s[5],
        wnd: endian::le_value(s.subrange(6, 8)) as u16,
        ts: word_at(s, 8),
        sn: word_at(s, 12),
        una: word_at(s, 16),
        len: word_at(s, 20),
    }
}

impl KcpHeader {
    /// Size of KCP header in bytes.
    pub const SIZE: usize = 24;

    /// The bytes of this header on the wire.
    pub open spec fn wire(self) -> Seq<u8> {
        endian::le_bytes(self.conv as nat, 4) + seq![self.cmd] + seq![self.frg]
            + endian::le_bytes(self.wnd as nat, 2) + endian::le_bytes(self.ts as nat, 4)
            + endian::le_bytes(self.sn as nat, 4) + endian::le_bytes(self.una as nat, 4)
            + endian::le_bytes(self.len as nat, 4)
    }

    /// Create a new header that carries the timestamp `ts`.
    pub fn new_at(conv: ConvId, cmd: u8, ts: Timestamp) -> (r: Self)
        ensures
            r == (KcpHeader { conv, cmd, frg: 0, wnd: 0, ts, sn: 0, una: 0, len: 0 }),
    {
        KcpHeader { conv, cmd, frg: 0, wnd: 0, ts, sn: 0, una: 0, len: 0 }
    }

    /// Create a new header that carries the current time.
    pub fn new(conv: ConvId, cmd: u8) -> (r: Self)
        ensures
            r == (KcpHeader { conv, cmd, frg: 0, wnd: 0, ts: r.ts, sn: 0, una: 0, len: 0 }),
    {
        KcpHeader::new_at(conv, cmd, current_timestamp())
    }

    /// Encode header into buffer.
    pub fn encode(&self, buf: &mut BytesMut)
        requires
            buffers::buf_of(*old(buf)).len() + 24 <= buffers::buffer_limit(),
        ensures
            buffers::buf_of(*final(buf)) == buffers::buf_of(*old(buf)) + self.wire(),
    {
        proof {
            endian::lemma_le_bytes_len(self.conv as nat, 4);
            endian::lemma_le_bytes_len(self.wnd as nat, 2);
            endian::lemma_le_bytes_len(self.ts as nat, 4);
            endian::lemma_le_bytes_len(self.sn as nat, 4);
            endian::lemma_le_bytes_len(self.una as nat, 4);
            endian::lemma_le_bytes_len(self.len as nat, 4);
        }
        buffers::put_u32_le(buf, self.conv);
        buffers::put_u8(buf, self.cmd);
        buffers::put_u8(buf, self.frg);
        buffers::put_u16_le(buf, self.wnd);
        buffers::put_u32_le(buf, self.ts);
        buffers::put_u32_le(buf, self.sn);
        buffers::put_u32_le(buf, self.una);
        buffers::put_u32_le(buf, self.len);
        assert(buffers::buf_of(*buf) =~= buffers::buf_of(*old(buf)) + self.wire());
    }

    /// Decode header from buffer. The bytes of the header are taken off the buffer; a buffer
    /// too short to hold one is left alone.
    pub fn decode(buf: &mut Bytes) -> (r: Option<Self>)
        ensures
            buffers::bytes_of(*old(buf)).len() < 24 ==> r is None && buffers::bytes_of(*final(buf))
                == buffers::bytes_of(*old(buf)),
            buffers::bytes_of(*old(buf)).len() >= 24 ==> r == Some(
                header_at_front(buffers::bytes_of(*old(buf))),
            ) && buffers::bytes_of(*final(buf)) == buffers::bytes_of(*old(buf)).skip(24),
    {
        if buf.len() < Self::SIZE {
            return None;
        }
        let ghost s = buffers::bytes_of(*buf);
        let conv: u32 = buffers::get_u32_le(buf);
        assert(s.take(4) =~= s.subrange(0, 4));
        let cmd: u8 = buffers::get_u8(buf);
        assert(buffers::bytes_of(*buf) =~= s.skip(5));
        let frg: u8 = buffers::get_u8(buf);
        assert(buffers::bytes_of(*buf) =~= s.skip(6));
        assert(s.skip(6).take(2) =~= s.subrange(6, 8));
        let wnd: u16 = buffers::get_u16_le(buf);
        assert(buffers::bytes_of(*buf) =~= s.skip(8));
        assert(s.skip(8).take(4) =~= s.subrange(8, 12));
        let ts: u32 = buffers::get_u32_le(buf);
        assert(buffers::bytes_of(*buf) =~= s.skip(12));
        assert(s.skip(12).take(4) =~= s.subrange(12, 16));
        let sn: u32 = buffers::get_u32_le(buf);
        assert(buffers::bytes_of(*buf) =~= s.skip(16));
        assert(s.skip(16).take(4) =~= s.subrange(16, 20));
        let una: u32 = buffers::get_u32_le(buf);
        assert(buffers::bytes_of(*buf) =~= s.skip(20));
        assert(s.skip(20).take(4) =~= s.subrange(20, 24));
        let len: u32 = buffers::get_u32_le(buf);
        assert(buffers::bytes_of(*buf) =~= s.skip(24));
        Some(KcpHeader { conv, cmd, frg, wnd, ts, sn, una, len })
    }

    /// Get command type as string for debugging.
    pub fn cmd_str(&self) -> (r: &'static str)
        ensures
            r@ == (if self.cmd == constants::IKCP_CMD_PUSH {
                "PUSH"@
            } else if self.cmd == constants::IKCP_CMD_ACK {
                "ACK"@
            } else if self.cmd == constants::IKCP_CMD_WASK {
                "WASK"@
            } else if self.cmd == constants::IKCP_CMD_WINS {
                "WINS"@
            } else {
                "UNKNOWN"@
            }),
    {
        if self.cmd == constants::IKCP_CMD_PUSH {
            "PUSH"
        } else if self.cmd == constants::IKCP_CMD_ACK {
            "ACK"
        } else if self.cmd == constants::IKCP_CMD_WASK {
            "WASK"
        } else if self.cmd == constants::IKCP_CMD_WINS {
            "WINS"
        } else {
            "UNKNOWN"
        }
    }
}

/// KCP segment containing header and data.
#[derive(Debug)]
pub struct KcpSegment {
    pub header: KcpHeader,
    pub data: Bytes,
    // Internal fields for protocol logic
    pub resendts: Timestamp,
    pub rto: u32,
    pub fastack: u32,
    pub xmit: u32,
}

/// What a segment stands for: its header, the bytes that it carries and its state as a
/// segment in flight.
#[verifier::ext_equal]
pub struct SegmentModel {
    pub header: KcpHeader,
    pub data: Seq<u8>,
    pub resendts: Timestamp,
    pub rto: u32,
    pub fastack: u32,
    pub xmit: u32,
}

impl SegmentModel {
    /// The bytes of this segment on the wire.
    pub open spec fn wire(self) -> Seq<u8> {
        self.header.wire() + self.data
    }

    /// A segment that has not been transmitted.
    pub open spec fn fresh(header: KcpHeader, data: Seq<u8>) -> Self {
        SegmentModel {
            header,
            data,
            resendts: 0,
            rto: constants::IKCP_RTO_DEF,
            fastack: 0,
            xmit: 0,
        }
    }

    /// The header says how much data there is.
    pub open spec fn len_matches(self) -> bool {
        self.header.len == self.data.len()
    }
}

impl View for KcpSegment {
    type V = SegmentModel;

    open spec fn view(&self) -> SegmentModel {
        SegmentModel {
            header: self.header,
            data: buffers::bytes_of(self.data),
            resendts: self.resendts,
            rto: self.rto,
            fastack: self.fastack,
            xmit: self.xmit,
        }
    }
}

impl Clone for KcpSegment {
    fn clone(&self) -> (r: Self)
        ensures
            r@ == self@,
    {
        KcpSegment {
            header: self.header,
            data: buffers::share(&self.data),
            resendts: self.resendts,
            rto: self.rto,
            fastack: self.fastack,
            xmit: self.xmit,
        }
    }
}

impl KcpSegment {
    /// Create a new segment that carries the timestamp `ts`.
    pub fn new_at(conv: ConvId, cmd: u8, ts: Timestamp, data: Bytes) -> (r: Self)
        ensures
            r@ == SegmentModel::fresh(
                KcpHeader {
                    conv,
                    cmd,
                    frg: 0,
                    wnd: 0,
                    ts,
                    sn: 0,
                    una: 0,
                    len: (buffers::bytes_of(data).len() % 0x1_0000_0000) as u32,
                },
                buffers::bytes_of(data),
            ),
    {
        let mut header = KcpHeader::new_at(conv, cmd, ts);
        header.len = (data.len() as u64 % 0x1_0000_0000) as u32;
        KcpSegment {
            header,
            data,
            resendts: 0,
            rto: constants::IKCP_RTO_DEF,
            fastack: 0,
            xmit: 0,
        }
    }

    /// Create a new segment that carries the current time.
    pub fn new(conv: ConvId, cmd: u8, data: Bytes) -> (r: Self)
        ensures
            r@ == SegmentModel::fresh(
                KcpHeader {
                    conv,
                    cmd,
                    frg: 0,
                    wnd: 0,
                    ts: r@.header.ts,
                    sn: 0,
                    una: 0,
                    len: (buffers::bytes_of(data).len() % 0x1_0000_0000) as u32,
                },
                buffers::bytes_of(data),
            ),
    {
        KcpSegment::new_at(conv, cmd, current_timestamp(), data)
    }

    /// Create PUSH segment.
    pub fn push(conv: ConvId, sn: SeqNum, data: Bytes) -> (r: Self)
        ensures
            r@ == SegmentModel::fresh(
                KcpHeader {
                    conv,
                    cmd: constants::IKCP_CMD_PUSH,
                    frg: 0,
                    wnd: 0,
                    ts: r@.header.ts,
                    sn,
                    una: 0,
                    len: (buffers::bytes_of(data).len() % 0x1_0000_0000) as u32,
                },
                buffers::bytes_of(data),
            ),
    {
        let mut seg = KcpSegment::new(conv, constants::IKCP_CMD_PUSH, data);
        seg.header.sn = sn;
        seg
    }

    /// Create ACK segment.
    pub fn ack(conv: ConvId, sn: SeqNum, ts: Timestamp) -> (r: Self)
        ensures
            r@ == SegmentModel::fresh(
                KcpHeader {
                    conv,
                    cmd: constants::IKCP_CMD_ACK,
                    frg: 0,
                    wnd: 0,
                    ts,
                    sn,
                    una: 0,
                    len: 0,
                },
                Seq::empty(),
            ),
    {
        let mut seg = KcpSegment::new_at(conv, constants::IKCP_CMD_ACK, ts, Bytes::new());
        seg.header.sn = sn;
        seg
    }

    /// Encode segment into buffer.
    pub fn encode(&self, buf: &mut BytesMut)
        requires
            buffers::buf_of(*old(buf)).len() + 24 + self@.data.len() <= buffers::buffer_limit(),
        ensures
            buffers::buf_of(*final(buf)) == buffers::buf_of(*old(buf)) + self@.wire(),
    {
        self.header.encode(buf);
        proof {
            lemma_header_wire_len(self.header);
        }
        buffers::extend(buf, &self.data);
        assert(buffers::buf_of(*buf) =~= buffers::buf_of(*old(buf)) + self@.wire());
    }

    /// Decode a segment that fills the whole buffer.
    pub fn decode(buf: Bytes) -> (r: Option<Self>)
        ensures
            ({
                let s = buffers::bytes_of(buf);
                if s.len() >= 24 && s.len() - 24 == header_at_front(s).len {
                    r is Some && r->0@ == SegmentModel::fresh(header_at_front(s), s.skip(24))
                } else {
                    r is None
                }
            }),
    {
        let mut buf = buf;
        match KcpHeader::decode(&mut buf) {
            None => None,
            Some(header) => {
                if buf.len() != header.len as usize {
                    return None;
                }
                Some(
                    KcpSegment {
                        header,
                        data: buf,
                        resendts: 0,
                        rto: constants::IKCP_RTO_DEF,
                        fastack: 0,
                        xmit: 0,
                    },
                )
            },
        }
    }

    /// Get total segment size.
    pub fn size(&self) -> (r: usize)
        ensures
            r == 24 + self@.data.len(),
    {
        KcpHeader::SIZE + self.data.len()
    }

    /// Check if this is a data segment.
    pub fn is_data(&self) -> (r: bool)
        ensures
            r == (self@.header.cmd == constants::IKCP_CMD_PUSH),
    {
        self.header.cmd == constants::IKCP_CMD_PUSH
    }

    /// Check if this is an ACK segment.
    pub fn is_ack(&self) -> (r: bool)
        ensures
            r == (self@.header.cmd == constants::IKCP_CMD_ACK),
    {
        self.header.cmd == constants::IKCP_CMD_ACK
    }

    /// Check if this is a probe segment.
    pub fn is_probe(&self) -> (r: bool)
        ensures
            r == (self@.header.cmd == constants::IKCP_CMD_WASK || self@.header.cmd
                == constants::IKCP_CMD_WINS),
    {
        self.header.cmd == constants::IKCP_CMD_WASK || self.header.cmd == constants::IKCP_CMD_WINS
    }
}

/// A header takes 24 bytes.
pub proof fn lemma_header_wire_len(h: KcpHeader)
    ensures
        h.wire().len() == 24,
{
    endian::lemma_le_bytes_len(h.conv as nat, 4);
    endian::lemma_le_bytes_len(h.wnd as nat, 2);
    endian::lemma_le_bytes_len(h.ts as nat, 4);
    endian::lemma_le_bytes_len(h.sn as nat, 4);
    endian::lemma_le_bytes_len(h.una as nat, 4);
    endian::lemma_le_bytes_len(h.len as nat, 4);
}

/// A header is read back from its bytes, whatever follows them.
pub proof fn law_header_round_trip(h: KcpHeader, rest: Seq<u8>)
    ensures
        header_at_front(h.wire() + rest) == h,
{
    let s = h.wire() + rest;
    let conv = endian::le_bytes(h.conv as nat, 4);
    let wnd = endian::le_bytes(h.wnd as nat, 2);
    let ts = endian::le_bytes(h.ts as nat, 4);
    let sn = endian::le_bytes(h.sn as nat, 4);
    let una = endian::le_bytes(h.una as nat, 4);
    let len = endian::le_bytes(h.len as nat, 4);
    lemma_header_wire_len(h);
    endian::lemma_le_bytes_len(h.conv as nat, 4);
    endian::lemma_le_bytes_len(h.wnd as nat, 2);
    endian::lemma_le_bytes_len(h.ts as nat, 4);
    endian::lemma_le_bytes_len(h.sn as nat, 4);
    endian::lemma_le_bytes_len(h.una as nat, 4);
    endian::lemma_le_bytes_len(h.len as nat, 4);
    endian::lemma_le_limits();
    endian::lemma_le_round_trip(h.conv as nat, 4);
    endian::lemma_le_round_trip(h.wnd as nat, 2);
    endian::lemma_le_round_trip(h.ts as nat, 4);
    endian::lemma_le_round_trip(h.sn as nat, 4);
    endian::lemma_le_round_trip(h.una as nat, 4);
    endian::lemma_le_round_trip(h.len as nat, 4);
    assert(s.subrange(0, 4) =~= conv);
    assert(s.subrange(6, 8) =~= wnd);
    assert(s.subrange(8, 12) =~= ts);
    assert(s.subrange(12, 16) =~= sn);
    assert(s.subrange(16, 20) =~= una);
    assert(s.subrange(20, 24) =~= len);
}

/// Decoding what a segment was encoded as gives its header and its data back.
pub proof fn law_segment_round_trip(seg: SegmentModel)
    requires
        seg.len_matches(),
    ensures
        seg.wire().len() - 24 == header_at_front(seg.wire()).len,
        header_at_front(seg.wire()) == seg.header,
        seg.wire().skip(24) == seg.data,
{
    law_header_round_trip(seg.header, seg.data);
    lemma_header_wire_len(seg.header);
    assert(seg.wire().skip(24) =~= seg.data);
}

/// Statistics for KCP connection.
#[derive(Debug, Clone, Copy, PartialEq, Eq, Structural)]
pub struct KcpStats {
    /// Total bytes sent
    pub bytes_sent: u64,
    /// Total bytes received
    pub bytes_received: u64,
    /// Total packets sent
    pub packets_sent: u64,
    /// Total packets received
    pub packets_received: u64,
    /// Total retransmissions
    pub retransmissions: u64,
    /// Fast retransmissions
    pub fast_retransmissions: u64,
    /// Current RTT in milliseconds
    pub rtt: u32,
    /// RTT variance
    pub rtt_var: u32,
    /// Current RTO
    pub rto: u32,
    /// Send window size
    pub snd_wnd: u32,
    /// Receive window size
    pub rcv_wnd: u32,
    /// Congestion window size
    pub cwnd: u32,
    /// Packets in send buffer
    pub snd_buf_size: u32,
    /// Packets in receive buffer
    pub rcv_buf_size: u32,
}

impl KcpStats {
    /// Statistics in which nothing has been counted.
    pub open spec fn zero() -> Self {
        KcpStats {
            bytes_sent: 0,
            bytes_received: 0,
            packets_sent: 0,
            packets_received: 0,
            retransmissions: 0,
            fast_retransmissions: 0,
            rtt: 0,
            rtt_var: 0,
            rto: 0,
            snd_wnd: 0,
            rcv_wnd: 0,
            cwnd: 0,
            snd_buf_size: 0,
            rcv_buf_size: 0,
        }
    }
}

impl Default for KcpStats {
    fn default() -> (r: Self)
        ensures
            r == KcpStats::zero(),
    {
        KcpStats {
            bytes_sent: 0,
            bytes_received: 0,
            packets_sent: 0,
            packets_received: 0,
            retransmissions: 0,
            fast_retransmissions: 0,
            rtt: 0,
            rtt_var: 0,
            rto: 0,
            snd_wnd: 0,
            rcv_wnd: 0,
            cwnd: 0,
            snd_buf_size: 0,
            rcv_buf_size: 0,
        }
    }
}

} // verus!
