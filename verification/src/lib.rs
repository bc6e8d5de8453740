//! A reliable ARQ protocol over datagrams.
use vstd::prelude::*;

pub mod actor;
pub mod buffer_pool;
pub mod buffers;
pub mod clock;
pub mod config;
pub mod connection;
pub mod connection_manager;
pub mod endian;
pub mod engine;
pub mod error;
pub mod listener;
pub mod metrics;
pub mod protocol;
pub mod routes;
pub mod sequence;
pub mod session;
pub mod stream;
pub mod text;

pub use config::{KcpConfig, KcpCoreConfig, NodeDelayConfig};
pub use engine::KcpEngine;
pub use error::{KcpCoreError, KcpCoreResult, KcpError, KcpResult};

verus! {

/// Version of this crate.
pub const VERSION: &'static str = "0.3.7";

/// Version of the wire protocol.
pub const PROTOCOL_VERSION: u32 = 1;

} // verus!
