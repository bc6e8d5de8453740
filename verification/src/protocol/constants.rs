//! Constants of the protocol.
use vstd::prelude::*;

verus! {

/// Smallest retransmission timeout in no-delay mode.
pub const IKCP_RTO_NDL: u32 = 30;

/// Smallest retransmission timeout otherwise.
pub const IKCP_RTO_MIN: u32 = 100;

/// Retransmission timeout before anything has been measured.
pub const IKCP_RTO_DEF: u32 = 200;

/// Largest retransmission timeout.
pub const IKCP_RTO_MAX: u32 = 60000;

/// Command: data.
pub const IKCP_CMD_PUSH: u8 = 81;

/// Command: acknowledgement.
pub const IKCP_CMD_ACK: u8 = 82;

/// Command: window probe (ask).
pub const IKCP_CMD_WASK: u8 = 83;

/// Command: window size (tell).
pub const IKCP_CMD_WINS: u8 = 84;

/// Probe flag: a window probe has to be sent.
pub const IKCP_ASK_SEND: u32 = 1;

/// Probe flag: the window size has to be told.
pub const IKCP_ASK_TELL: u32 = 2;

/// Default send window.
pub const IKCP_WND_SND: u32 = 32;

/// Default receive window, and the most fragments that one message may take.
pub const IKCP_WND_RCV: u32 = 128;

/// Default maximum transmission unit.
pub const IKCP_MTU_DEF: u32 = 1400;

/// Fast acknowledgement threshold.
pub const IKCP_ACK_FAST: u32 = 3;

/// Default update interval.
pub const IKCP_INTERVAL: u32 = 100;

/// Size of the header that precedes the data of a segment.
pub const IKCP_OVERHEAD: u32 = 24;

/// Default number of transmissions after which a link is dead.
pub const IKCP_DEADLINK: u32 = 20;

/// Initial slow start threshold.
pub const IKCP_THRESH_INIT: u32 = 2;

/// Smallest slow start threshold.
pub const IKCP_THRESH_MIN: u32 = 2;

/// First wait before a window probe, in milliseconds.
pub const IKCP_PROBE_INIT: u32 = 7000;

/// Longest wait before a window probe, in milliseconds.
pub const IKCP_PROBE_LIMIT: u32 = 120000;

/// How many transmissions a segment may have had and still be resent early.
pub const IKCP_FASTACK_LIMIT: u32 = 5;

} // verus!
