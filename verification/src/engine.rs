//! The protocol engine: acknowledgement, retransmission, flow and congestion control.
//!
//! A [`KcpEngine`] stands for an [`EngineModel`], and the contract of each operation says
//! which model it leads to.
use crate::buffers;
use crate::config::KcpCoreConfig;
use crate::protocol::constants;
use crate::protocol::{ConvId, KcpSegment, KcpStats, SegmentModel, SeqNum, Timestamp};
use crate::sequence;
use bytes::Bytes;
use std::collections::VecDeque;
use vstd::prelude::*;

pub mod acknowledging;
pub mod control_laws;
pub mod conversation;
pub mod delivery;
pub mod filling;
pub mod flushing;
pub mod input;
pub mod lifecycle;
pub mod messages;
pub mod packing;
pub mod progress;
pub mod receiving;
pub mod retransmission;
pub mod round_trips;
pub mod schedule;
pub mod sending;
pub mod supply;
pub mod transfer;
pub mod windows;
pub mod wire_laws;

verus! {

/// RTT calculation state.
#[derive(Debug, Clone, Copy, PartialEq, Eq, Structural)]
pub struct RttState {
    /// Smoothed RTT
    pub avg: u32,
    /// RTT variance
    pub var: u32,
    /// Retransmission timeout
    pub rto: u32,
    /// Minimum RTO
    pub min_rto: u32,
}

/// Window control state.
#[derive(Debug, Clone, Copy, PartialEq, Eq, Structural)]
pub struct WindowState {
    /// Send window size
    pub snd: u32,
    /// Receive window size
    pub rcv: u32,
    /// Remote window size
    pub rmt: u32,
    /// Congestion window
    pub cwnd: u32,
    /// Slow start threshold
    pub ssthresh: u32,
    /// Increment for congestion avoidance
    pub incr: u32,
}

/// Probe state for window probing.
#[derive(Debug, Clone, Copy, PartialEq, Eq, Structural)]
pub struct ProbeState {
    /// The peer has to be asked for its window
    pub ask_send: bool,
    /// The peer has to be told the window
    pub ask_tell: bool,
    /// How long to wait between two probes
    pub wait: u32,
    /// When the next probe is due
    pub ts: Timestamp,
}

/// KCP engine implementing the core protocol logic.
pub struct KcpEngine {
    conv: ConvId,
    config: KcpCoreConfig,
    snd_una: SeqNum,
    snd_nxt: SeqNum,
    rcv_nxt: SeqNum,
    rtt: RttState,
    wnd: WindowState,
    probe: ProbeState,
    snd_queue: VecDeque<KcpSegment>,
    rcv_queue: VecDeque<KcpSegment>,
    snd_buf: VecDeque<KcpSegment>,
    rcv_buf: VecDeque<KcpSegment>,
    ack_list: Vec<(SeqNum, Timestamp)>,
    output: Vec<Bytes>,
    stats: KcpStats,
    last_update: Timestamp,
    last_recv: Timestamp,
    xmit_count: u32,
}

/// What an engine stands for.
#[verifier::ext_equal]
pub struct EngineModel {
    /// The conversation
    pub conv: ConvId,
    /// The settings, with a usable transmission unit
    pub config: KcpCoreConfig,
    /// The first number that the peer has not acknowledged
    pub snd_una: SeqNum,
    /// The number of the next segment to send
    pub snd_nxt: SeqNum,
    /// The number of the next segment to receive
    pub rcv_nxt: SeqNum,
    /// Round-trip times
    pub rtt: RttState,
    /// Windows
    pub wnd: WindowState,
    /// Window probes
    pub probe: ProbeState,
    /// Segments that wait for a number
    pub snd_queue: Seq<SegmentModel>,
    /// Segments in order, for the application to take
    pub rcv_queue: Seq<SegmentModel>,
    /// Segments that wait for an acknowledgement
    pub snd_buf: Seq<SegmentModel>,
    /// Segments that came ahead of their turn
    pub rcv_buf: Seq<SegmentModel>,
    /// Acknowledgements that are owed: sequence number and timestamp
    pub ack_list: Seq<(SeqNum, Timestamp)>,
    /// Datagrams that are ready to leave
    pub output: Seq<Seq<u8>>,
    /// Statistics
    pub stats: KcpStats,
    /// When the last periodic flush was
    pub last_update: Timestamp,
    /// When the last packet came in
    pub last_recv: Timestamp,
    /// How many timeouts there have been
    pub xmit_count: u32,
}

/// What the segments of a queue stand for.
pub open spec fn models(s: Seq<KcpSegment>) -> Seq<SegmentModel> {
    Seq::new(s.len(), |i: int| s[i]@)
}

/// What the datagrams of a list hold.
pub open spec fn contents(s: Seq<Bytes>) -> Seq<Seq<u8>> {
    Seq::new(s.len(), |i: int| buffers::bytes_of(s[i]))
}

impl View for KcpEngine {
    type V = EngineModel;

    closed spec fn view(&self) -> EngineModel {
        EngineModel {
            conv: self.conv,
            config: self.config,
            snd_una: self.snd_una,
            snd_nxt: self.snd_nxt,
            rcv_nxt: self.rcv_nxt,
            rtt: self.rtt,
            wnd: self.wnd,
            probe: self.probe,
            snd_queue: models(self.snd_queue@),
            rcv_queue: models(self.rcv_queue@),
            snd_buf: models(self.snd_buf@),
            rcv_buf: models(self.rcv_buf@),
            ack_list: self.ack_list@,
            output: contents(self.output@),
            stats: self.stats,
            last_update: self.last_update,
            last_recv: self.last_recv,
            xmit_count: self.xmit_count,
        }
    }
}

/// The segments lie in order on the circle, counting from `base`, all less than `limit`
/// away from it.
pub open spec fn in_order(segs: Seq<SegmentModel>, base: u32, limit: int) -> bool {
    &&& forall|i: int| 0 <= i < segs.len() ==> sequence::distance(base, (#[trigger] segs[i]).header.sn) < limit
    &&& forall|i: int, j: int|
        0 <= i < j < segs.len() ==> sequence::distance(base, (#[trigger] segs[i]).header.sn)
            < sequence::distance(base, (#[trigger] segs[j]).header.sn)
}

/// The segments carry what their headers say, and no more than `mss` bytes each.
pub open spec fn sendable(segs: Seq<SegmentModel>, mss: int) -> bool {
    forall|i: int|
        0 <= i < segs.len() ==> (#[trigger] segs[i]).len_matches() && segs[i].data.len() <= mss
}

impl EngineModel {
    /// Maximum segment size (transmission unit minus overhead).
    pub open spec fn mss(self) -> int {
        self.config.mtu - constants::IKCP_OVERHEAD
    }

    /// How many retransmissions it takes to give the link up: as many as the settings say, and
    /// one at least.
    pub open spec fn dead_link(self) -> u32 {
        if self.config.max_retries == 0 {
            1
        } else {
            self.config.max_retries
        }
    }

    /// How many segments have been sent and not been acknowledged, counting those in between.
    pub open spec fn inflight(self) -> int {
        sequence::distance(self.snd_una, self.snd_nxt)
    }

    /// The settings leave room for data, and for a datagram in memory.
    pub open spec fn settings_wf(self) -> bool {
        &&& constants::IKCP_OVERHEAD < self.config.mtu
        &&& self.config.mtu <= usize::MAX / 8
        &&& self.wnd.snd == self.config.snd_wnd
        &&& self.wnd.rcv == self.config.rcv_wnd
        &&& self.wnd.rmt <= 0xffff
        &&& self.rtt.min_rto == (if self.config.nodelay.nodelay {
            constants::IKCP_RTO_NDL
        } else {
            constants::IKCP_RTO_MIN
        })
        &&& self.rtt.min_rto <= self.rtt.rto <= constants::IKCP_RTO_MAX
    }

    /// The receive side: what came early lies in order ahead of what is due next, and the
    /// application's queue is within the window.
    pub open spec fn receive_wf(self) -> bool {
        &&& in_order(self.rcv_buf, self.rcv_nxt, sequence::half_circle())
        &&& self.rcv_queue.len() <= self.wnd.rcv
    }

    /// The send side: what is in flight lies in order between the first unacknowledged
    /// number and the next one.
    pub open spec fn send_wf(self) -> bool {
        &&& sendable(self.snd_queue, self.mss())
        &&& sendable(self.snd_buf, self.mss())
        &&& self.inflight() <= 0xffff
        &&& in_order(self.snd_buf, self.snd_una, self.inflight())
    }

    /// The first segment in flight is the first one that is not acknowledged.
    pub open spec fn una_wf(self) -> bool {
        if self.snd_buf.len() == 0 {
            self.snd_una == self.snd_nxt
        } else {
            self.snd_una == self.snd_buf[0].header.sn
        }
    }

    /// What holds of every engine between two operations.
    pub open spec fn wf(self) -> bool {
        &&& self.settings_wf()
        &&& self.receive_wf()
        &&& self.send_wf()
        &&& self.una_wf()
    }
}

impl KcpEngine {
    /// What holds of every engine between two operations.
    pub open spec fn wf(&self) -> bool {
        self@.wf()
    }
}

/// Taking the first segment off a queue.
pub proof fn lemma_models_front(s: Seq<KcpSegment>)
    requires
        s.len() > 0,
    ensures
        models(s.subrange(1, s.len() as int)) == models(s).skip(1),
        models(s)[0] == s[0]@,
{
    assert(models(s.subrange(1, s.len() as int)) =~= models(s).skip(1));
}

/// Putting a segment at the end of a queue.
pub proof fn lemma_models_push(s: Seq<KcpSegment>, seg: KcpSegment)
    ensures
        models(s.push(seg)) == models(s).push(seg@),
{
    assert(models(s.push(seg)) =~= models(s).push(seg@));
}

} // verus!
