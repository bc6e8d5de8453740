//! Configuration types.
//!
//! [`KcpCoreConfig`] is what the protocol engine reads. [`KcpConfig`] extends it with
//! settings of the transport and the runtime. Durations are whole milliseconds.
use crate::error::{KcpError, KcpResult};
use vstd::prelude::*;
use vstd::std_specs::convert::FromSpecImpl;

verus! {

/// Node delay configuration for different performance modes.
#[derive(Debug, Clone, Copy, PartialEq, Eq, Structural)]
pub struct NodeDelayConfig {
    /// Enable no-delay mode
    pub nodelay: bool,
    /// Internal update interval in milliseconds
    pub interval: u32,
    /// Fast resend threshold
    pub resend: u32,
    /// Disable congestion control
    pub no_congestion_control: bool,
}

impl NodeDelayConfig {
    /// Normal mode - balanced performance and reliability.
    pub fn normal() -> (r: Self)
        ensures
            r == (NodeDelayConfig {
                nodelay: false,
                interval: 40,
                resend: 0,
                no_congestion_control: false,
            }),
    {
        NodeDelayConfig { nodelay: false, interval: 40, resend: 0, no_congestion_control: false }
    }

    /// Fast mode - optimized for low latency.
    pub fn fast() -> (r: Self)
        ensures
            r == (NodeDelayConfig {
                nodelay: true,
                interval: 8,
                resend: 2,
                no_congestion_control: false,
            }),
    {
        NodeDelayConfig { nodelay: true, interval: 8, resend: 2, no_congestion_control: false }
    }

    /// Turbo mode - maximum performance, minimum latency.
    pub fn turbo() -> (r: Self)
        ensures
            r == (NodeDelayConfig {
                nodelay: true,
                interval: 4,
                resend: 1,
                no_congestion_control: true,
            }),
    {
        NodeDelayConfig { nodelay: true, interval: 4, resend: 1, no_congestion_control: true }
    }

    /// Gaming mode - specialized for real-time gaming with ultra-low jitter.
    pub fn gaming() -> (r: Self)
        ensures
            r == (NodeDelayConfig {
                nodelay: true,
                interval: 3,
                resend: 1,
                no_congestion_control: true,
            }),
    {
        NodeDelayConfig { nodelay: true, interval: 3, resend: 1, no_congestion_control: true }
    }

    /// Custom configuration.
    pub fn custom(nodelay: bool, interval: u32, resend: u32, no_congestion_control: bool) -> (r:
        Self)
        ensures
            r == (NodeDelayConfig { nodelay, interval, resend, no_congestion_control }),
    {
        NodeDelayConfig { nodelay, interval, resend, no_congestion_control }
    }
}

/// Protocol-only configuration for the KCP engine.
///
/// Contains only the fields the engine reads: no transport or I/O settings.
#[derive(Debug, Clone, Copy, PartialEq, Eq, Structural)]
pub struct KcpCoreConfig {
    /// Maximum transmission unit
    pub mtu: u32,
    /// Send window size
    pub snd_wnd: u32,
    /// Receive window size
    pub rcv_wnd: u32,
    /// Node delay configuration
    pub nodelay: NodeDelayConfig,
    /// Maximum retransmissions before giving up
    pub max_retries: u32,
    /// Enable stream mode (no message boundaries)
    pub stream_mode: bool,
}

impl Default for KcpCoreConfig {
    fn default() -> (r: Self)
        ensures
            r == (KcpCoreConfig {
                mtu: 1400,
                snd_wnd: 32,
                rcv_wnd: 128,
                nodelay: NodeDelayConfig {
                    nodelay: false,
                    interval: 40,
                    resend: 0,
                    no_congestion_control: false,
                },
                max_retries: 20,
                stream_mode: false,
            }),
    {
        KcpCoreConfig {
            mtu: 1400,
            snd_wnd: 32,
            rcv_wnd: 128,
            nodelay: NodeDelayConfig::normal(),
            max_retries: 20,
            stream_mode: false,
        }
    }
}

/// The loss threshold that drops every packet. A loss rate `p` is written as the least
/// threshold that is not below `p` times this number, and a packet is dropped when the top
/// 24 bits of a random number lie below the threshold.
pub const LOSS_SCALE: u32 = 0x100_0000;

/// Full KCP configuration: protocol settings, and settings of the transport and the runtime.
#[derive(Debug, Clone, Copy, PartialEq, Eq, Structural)]
pub struct KcpConfig {
    /// Maximum transmission unit
    pub mtu: u32,
    /// Send window size
    pub snd_wnd: u32,
    /// Receive window size
    pub rcv_wnd: u32,
    /// Node delay configuration
    pub nodelay: NodeDelayConfig,
    /// Maximum retransmissions before giving up
    pub max_retries: u32,
    /// Enable stream mode (no message boundaries)
    pub stream_mode: bool,
    /// Connection timeout in milliseconds
    pub connect_timeout: u64,
    /// Keep-alive interval in milliseconds
    pub keep_alive: Option<u64>,
    /// Buffer size for UDP socket
    pub socket_buffer_size: Option<usize>,
    /// Enable packet loss simulation (for testing): the loss threshold
    pub simulate_packet_loss: Option<u32>,
    /// A bound on waiting connections, for those who want one: it is carried along, and no
    /// function of the library goes by it
    pub max_pending_connections: usize,
    /// How often a listener forgets connections that are gone, in milliseconds
    pub cleanup_interval: u64,
}

impl Default for KcpConfig {
    fn default() -> (r: Self)
        ensures
            r == KcpConfig::standard(),
    {
        KcpConfig {
            mtu: 1400,
            snd_wnd: 32,
            rcv_wnd: 128,
            nodelay: NodeDelayConfig::normal(),
            max_retries: 20,
            stream_mode: false,
            connect_timeout: 10_000,
            keep_alive: Some(30_000),
            socket_buffer_size: None,
            simulate_packet_loss: None,
            max_pending_connections: 256,
            cleanup_interval: 30_000,
        }
    }
}

impl FromSpecImpl<KcpConfig> for KcpCoreConfig {
    open spec fn obeys_from_spec() -> bool {
        true
    }

    open spec fn from_spec(c: KcpConfig) -> KcpCoreConfig {
        c.protocol_part()
    }
}

impl From<KcpConfig> for KcpCoreConfig {
    /// Extracts the six protocol-only fields that the engine reads.
    fn from(c: KcpConfig) -> (r: Self) {
        KcpCoreConfig {
            mtu: c.mtu,
            snd_wnd: c.snd_wnd,
            rcv_wnd: c.rcv_wnd,
            nodelay: c.nodelay,
            max_retries: c.max_retries,
            stream_mode: c.stream_mode,
        }
    }
}

impl KcpConfig {
    /// The default configuration.
    pub open spec fn standard() -> Self {
        KcpConfig {
            mtu: 1400,
            snd_wnd: 32,
            rcv_wnd: 128,
            nodelay: NodeDelayConfig {
                nodelay: false,
                interval: 40,
                resend: 0,
                no_congestion_control: false,
            },
            max_retries: 20,
            stream_mode: false,
            connect_timeout: 10_000,
            keep_alive: Some(30_000),
            socket_buffer_size: None,
            simulate_packet_loss: None,
            max_pending_connections: 256,
            cleanup_interval: 30_000,
        }
    }

    /// The settings that the engine reads.
    pub open spec fn protocol_part(self) -> KcpCoreConfig {
        KcpCoreConfig {
            mtu: self.mtu,
            snd_wnd: self.snd_wnd,
            rcv_wnd: self.rcv_wnd,
            nodelay: self.nodelay,
            max_retries: self.max_retries,
            stream_mode: self.stream_mode,
        }
    }

    /// A connection can be run with this configuration.
    pub open spec fn valid(self) -> bool {
        &&& 64 <= self.mtu <= 65535
        &&& self.snd_wnd > 0
        &&& self.rcv_wnd > 0
        &&& self.nodelay.interval > 0
        &&& self.max_retries > 0
    }

    /// What is wrong with a configuration that is not valid.
    pub open spec fn complaint(self) -> Seq<char> {
        if !(64 <= self.mtu <= 65535) {
            "MTU must be between 64 and 65535"@
        } else if self.snd_wnd == 0 || self.rcv_wnd == 0 {
            "Window sizes must be greater than 0"@
        } else if self.nodelay.interval == 0 {
            "Update interval must be greater than 0"@
        } else {
            "Max retries must be greater than 0"@
        }
    }

    /// Create a new configuration with default values.
    pub fn new() -> (r: Self)
        ensures
            r == KcpConfig::standard(),
    {
        KcpConfig::default()
    }

    /// Set MTU (Maximum Transmission Unit).
    pub fn mtu(self, mtu: u32) -> (r: Self)
        ensures
            r == (KcpConfig { mtu, ..self }),
    {
        KcpConfig { mtu, ..self }
    }

    /// Set send window size.
    pub fn send_window(self, wnd: u32) -> (r: Self)
        ensures
            r == (KcpConfig { snd_wnd: wnd, ..self }),
    {
        KcpConfig { snd_wnd: wnd, ..self }
    }

    /// Set receive window size.
    pub fn recv_window(self, wnd: u32) -> (r: Self)
        ensures
            r == (KcpConfig { rcv_wnd: wnd, ..self }),
    {
        KcpConfig { rcv_wnd: wnd, ..self }
    }

    /// Set both send and receive window sizes.
    pub fn window_size(self, snd_wnd: u32, rcv_wnd: u32) -> (r: Self)
        ensures
            r == (KcpConfig { snd_wnd, rcv_wnd, ..self }),
    {
        KcpConfig { snd_wnd, rcv_wnd, ..self }
    }

    /// Use normal mode (default).
    pub fn normal_mode(self) -> (r: Self)
        ensures
            r == (KcpConfig {
                nodelay: NodeDelayConfig {
                    nodelay: false,
                    interval: 40,
                    resend: 0,
                    no_congestion_control: false,
                },
                ..self
            }),
    {
        KcpConfig { nodelay: NodeDelayConfig::normal(), ..self }
    }

    /// Use fast mode for low latency.
    pub fn fast_mode(self) -> (r: Self)
        ensures
            r == (KcpConfig {
                nodelay: NodeDelayConfig {
                    nodelay: true,
                    interval: 8,
                    resend: 2,
                    no_congestion_control: false,
                },
                ..self
            }),
    {
        KcpConfig { nodelay: NodeDelayConfig::fast(), ..self }
    }

    /// Use turbo mode for maximum performance.
    pub fn turbo_mode(self) -> (r: Self)
        ensures
            r == (KcpConfig {
                nodelay: NodeDelayConfig {
                    nodelay: true,
                    interval: 4,
                    resend: 1,
                    no_congestion_control: true,
                },
                ..self
            }),
    {
        KcpConfig { nodelay: NodeDelayConfig::turbo(), ..self }
    }

    /// Set custom node delay configuration.
    pub fn nodelay_config(self, config: NodeDelayConfig) -> (r: Self)
        ensures
            r == (KcpConfig { nodelay: config, ..self }),
    {
        KcpConfig { nodelay: config, ..self }
    }

    /// Set maximum retries.
    pub fn max_retries(self, retries: u32) -> (r: Self)
        ensures
            r == (KcpConfig { max_retries: retries, ..self }),
    {
        KcpConfig { max_retries: retries, ..self }
    }

    /// Enable stream mode (no message boundaries).
    pub fn stream_mode(self, enabled: bool) -> (r: Self)
        ensures
            r == (KcpConfig { stream_mode: enabled, ..self }),
    {
        KcpConfig { stream_mode: enabled, ..self }
    }

    /// Set connection timeout in milliseconds.
    pub fn connect_timeout(self, timeout: u64) -> (r: Self)
        ensures
            r == (KcpConfig { connect_timeout: timeout, ..self }),
    {
        KcpConfig { connect_timeout: timeout, ..self }
    }

    /// Set keep-alive interval in milliseconds.
    pub fn keep_alive(self, interval: Option<u64>) -> (r: Self)
        ensures
            r == (KcpConfig { keep_alive: interval, ..self }),
    {
        KcpConfig { keep_alive: interval, ..self }
    }

    /// Set UDP socket buffer size.
    pub fn socket_buffer_size(self, size: usize) -> (r: Self)
        ensures
            r == (KcpConfig { socket_buffer_size: Some(size), ..self }),
    {
        KcpConfig { socket_buffer_size: Some(size), ..self }
    }

    /// Enable packet loss simulation for testing. A threshold beyond [`LOSS_SCALE`] stands
    /// for no loss rate, and is ignored.
    pub fn simulate_packet_loss(self, threshold: u32) -> (r: Self)
        ensures
            threshold <= LOSS_SCALE ==> r == (KcpConfig {
                simulate_packet_loss: Some(threshold),
                ..self
            }),
            threshold > LOSS_SCALE ==> r == self,
    {
        if threshold <= LOSS_SCALE {
            KcpConfig { simulate_packet_loss: Some(threshold), ..self }
        } else {
            self
        }
    }

    /// Validate configuration.
    pub fn validate(&self) -> (r: KcpResult<()>)
        ensures
            r is Ok <==> self.valid(),
            r matches Err(e) ==> e.is_config(self.complaint()),
    {
        if self.mtu < 64 || self.mtu > 65535 {
            return Err(KcpError::config("MTU must be between 64 and 65535"));
        }
        if self.snd_wnd == 0 || self.rcv_wnd == 0 {
            return Err(KcpError::config("Window sizes must be greater than 0"));
        }
        if self.nodelay.interval == 0 {
            return Err(KcpError::config("Update interval must be greater than 0"));
        }
        if self.max_retries == 0 {
            return Err(KcpError::config("Max retries must be greater than 0"));
        }
        Ok(())
    }

    /// Configuration optimized for games.
    pub fn gaming() -> (r: Self)
        ensures
            r == (KcpConfig {
                nodelay: NodeDelayConfig {
                    nodelay: true,
                    interval: 3,
                    resend: 1,
                    no_congestion_control: true,
                },
                snd_wnd: 64,
                rcv_wnd: 128,
                mtu: 1200,
                connect_timeout: 3_000,
                keep_alive: Some(10_000),
                ..KcpConfig::standard()
            }),
            r.valid(),
    {
        KcpConfig::default().nodelay_config(NodeDelayConfig::gaming()).window_size(64, 128).mtu(
            1200,
        ).connect_timeout(3_000).keep_alive(Some(10_000))
    }

    /// Configuration optimized for file transfers.
    pub fn file_transfer() -> (r: Self)
        ensures
            r == (KcpConfig {
                snd_wnd: 256,
                rcv_wnd: 256,
                stream_mode: true,
                connect_timeout: 30_000,
                keep_alive: Some(60_000),
                ..KcpConfig::standard()
            }),
            r.valid(),
    {
        KcpConfig::default().normal_mode().window_size(256, 256).mtu(1400).stream_mode(
            true,
        ).connect_timeout(30_000).keep_alive(Some(60_000))
    }

    /// Configuration optimized for real-time communication.
    pub fn realtime() -> (r: Self)
        ensures
            r == (KcpConfig {
                nodelay: NodeDelayConfig {
                    nodelay: true,
                    interval: 8,
                    resend: 2,
                    no_congestion_control: false,
                },
                snd_wnd: 64,
                rcv_wnd: 64,
                mtu: 1200,
                connect_timeout: 3_000,
                keep_alive: Some(10_000),
                ..KcpConfig::standard()
            }),
            r.valid(),
    {
        KcpConfig::default().fast_mode().window_size(64, 64).mtu(1200).connect_timeout(
            3_000,
        ).keep_alive(Some(10_000))
    }

    /// Configuration for testing with simulated network conditions.
    pub fn testing(packet_loss: u32) -> (r: Self)
        ensures
            r == (KcpConfig {
                nodelay: NodeDelayConfig {
                    nodelay: true,
                    interval: 8,
                    resend: 2,
                    no_congestion_control: false,
                },
                simulate_packet_loss: if packet_loss <= LOSS_SCALE {
                    Some(packet_loss)
                } else {
                    None
                },
                connect_timeout: 5_000,
                ..KcpConfig::standard()
            }),
            r.valid(),
    {
        KcpConfig::default().fast_mode().simulate_packet_loss(packet_loss).connect_timeout(5_000)
    }
}

/// A configuration is valid when the transmission unit lies between 64 and 65535, and the windows,
/// the interval and the retries are not zero. The first of these that fails is what is
/// complained of.
pub proof fn law_valid_configurations(c: KcpConfig)
    ensures
        c.valid() <==> !(c.mtu < 64 || c.mtu > 65535 || c.snd_wnd == 0 || c.rcv_wnd == 0
            || c.nodelay.interval == 0 || c.max_retries == 0),
        c.mtu < 64 || c.mtu > 65535 ==> c.complaint() == "MTU must be between 64 and 65535"@,
        64 <= c.mtu <= 65535 && (c.snd_wnd == 0 || c.rcv_wnd == 0) ==> c.complaint()
            == "Window sizes must be greater than 0"@,
        64 <= c.mtu <= 65535 && c.snd_wnd > 0 && c.rcv_wnd > 0 && c.nodelay.interval == 0
            ==> c.complaint() == "Update interval must be greater than 0"@,
        64 <= c.mtu <= 65535 && c.snd_wnd > 0 && c.rcv_wnd > 0 && c.nodelay.interval > 0
            && c.max_retries == 0 ==> c.complaint() == "Max retries must be greater than 0"@,
{
}

} // verus!
