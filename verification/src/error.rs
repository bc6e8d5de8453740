//! Error types.
//!
//! [`KcpCoreError`] is what the protocol engine produces. [`KcpError`] extends it with I/O,
//! timeout, configuration and session errors.
use crate::text;
use crate::text::{decimal, joined};
use vstd::prelude::*;
use vstd::std_specs::convert::FromSpecImpl;
use vstd::string::StringExecFns;

verus! {

/// Result type for operations of the protocol engine.
pub type KcpCoreResult<T> = Result<T, KcpCoreError>;

/// Result type for KCP operations.
pub type KcpResult<T> = Result<T, KcpError>;

/// Error types produced by the KCP protocol engine.
#[derive(Debug)]
pub enum KcpCoreError {
    /// Protocol-level errors (invalid packets, bad state)
    Protocol { message: String },
    /// Buffer management errors (message too large, etc.)
    Buffer { message: String },
    /// Connection lost (exceeded max retransmissions)
    ConnectionLost,
}

impl KcpCoreError {
    /// This is a protocol error with the given text.
    pub open spec fn is_protocol(self, text: Seq<char>) -> bool {
        self matches KcpCoreError::Protocol { message } && message@ == text
    }

    /// This is a buffer error with the given text.
    pub open spec fn is_buffer(self, text: Seq<char>) -> bool {
        self matches KcpCoreError::Buffer { message } && message@ == text
    }

    /// What the error says.
    pub open spec fn text(self) -> Seq<char> {
        match self {
            KcpCoreError::Protocol { message } => "Protocol error: "@ + message@,
            KcpCoreError::Buffer { message } => "Buffer error: "@ + message@,
            KcpCoreError::ConnectionLost => "Connection lost"@,
        }
    }

    /// Create a protocol error.
    pub fn protocol(message: &str) -> (r: Self)
        ensures
            r.is_protocol(message@),
    {
        KcpCoreError::Protocol { message: message.to_owned() }
    }

    /// Create a buffer error.
    pub fn buffer(message: &str) -> (r: Self)
        ensures
            r.is_buffer(message@),
    {
        KcpCoreError::Buffer { message: message.to_owned() }
    }

    /// Create a connection-lost error.
    pub fn connection_lost() -> (r: Self)
        ensures
            r == KcpCoreError::ConnectionLost,
    {
        KcpCoreError::ConnectionLost
    }

    /// Check if this is a fatal error that should stop the engine.
    pub fn is_fatal(&self) -> (r: bool)
        ensures
            r == (*self is ConnectionLost),
    {
        match self {
            KcpCoreError::ConnectionLost => true,
            _ => false,
        }
    }

    /// The error in words.
    pub fn describe(&self) -> (r: String)
        ensures
            r@ == self.text(),
    {
        match self {
            KcpCoreError::Protocol { message } => joined("Protocol error: ", message.as_str()),
            KcpCoreError::Buffer { message } => joined("Buffer error: ", message.as_str()),
            KcpCoreError::ConnectionLost => "Connection lost".to_owned(),
        }
    }
}

/// The kinds of I/O error that the library tells apart.
#[derive(Debug, Clone, Copy, PartialEq, Eq, Structural)]
pub enum IoErrorKind {
    /// The operation would have to wait
    WouldBlock,
    /// The operation took too long
    TimedOut,
    /// The operation was interrupted
    Interrupted,
    /// The other end of a pipe is gone
    BrokenPipe,
    /// The connection was aborted
    ConnectionAborted,
    /// The connection was refused
    ConnectionRefused,
    /// The connection was reset
    ConnectionReset,
    /// The data ended too soon
    UnexpectedEof,
    /// Anything else
    Other,
}

/// Specific connection error types.
#[derive(Debug, Clone, Copy, PartialEq, Eq, Structural)]
pub enum ConnectionError {
    /// Connection already closed
    Closed,
    /// Connection reset by peer
    Reset,
    /// Connection refused
    Refused,
    /// Connection lost
    Lost,
    /// Invalid conversation ID
    InvalidConv,
    /// Handshake failed
    HandshakeFailed,
    /// Connection timed out
    Timeout,
    /// Not connected
    NotConnected,
}

impl ConnectionError {
    /// What the error says.
    pub open spec fn text(self) -> Seq<char> {
        match self {
            ConnectionError::Closed => "connection closed"@,
            ConnectionError::Reset => "connection reset by peer"@,
            ConnectionError::Refused => "connection refused"@,
            ConnectionError::Lost => "connection lost"@,
            ConnectionError::InvalidConv => "invalid conversation ID"@,
            ConnectionError::HandshakeFailed => "handshake failed"@,
            ConnectionError::Timeout => "connection timed out"@,
            ConnectionError::NotConnected => "not connected"@,
        }
    }

    /// The error in words.
    pub fn describe(&self) -> (r: &'static str)
        ensures
            r@ == self.text(),
    {
        match self {
            ConnectionError::Closed => "connection closed",
            ConnectionError::Reset => "connection reset by peer",
            ConnectionError::Refused => "connection refused",
            ConnectionError::Lost => "connection lost",
            ConnectionError::InvalidConv => "invalid conversation ID",
            ConnectionError::HandshakeFailed => "handshake failed",
            ConnectionError::Timeout => "connection timed out",
            ConnectionError::NotConnected => "not connected",
        }
    }
}

/// Comprehensive error types for KCP operations.
#[allow(inconsistent_fields)]
#[derive(Debug)]
pub enum KcpError {
    /// I/O related errors
    Io { kind: IoErrorKind, message: String },
    /// Protocol-level errors
    Protocol { message: String },
    /// Connection-related errors
    Connection { kind: ConnectionError },
    /// Timeout errors
    Timeout { timeout_ms: u64 },
    /// Buffer management errors
    Buffer { message: String },
    /// Configuration errors
    Config { message: String },
    /// Session management errors
    Session { message: String },
    /// Internal errors that shouldn't normally occur
    Internal { message: String },
}

impl FromSpecImpl<KcpCoreError> for KcpError {
    open spec fn obeys_from_spec() -> bool {
        true
    }

    open spec fn from_spec(e: KcpCoreError) -> KcpError {
        KcpError::of_core(e)
    }
}

impl From<KcpCoreError> for KcpError {
    fn from(e: KcpCoreError) -> (r: Self) {
        match e {
            KcpCoreError::Protocol { message } => KcpError::Protocol { message },
            KcpCoreError::Buffer { message } => KcpError::Buffer { message },
            KcpCoreError::ConnectionLost => KcpError::Connection { kind: ConnectionError::Lost },
        }
    }
}

impl KcpError {
    /// The error that an engine error becomes.
    pub open spec fn of_core(e: KcpCoreError) -> Self {
        match e {
            KcpCoreError::Protocol { message } => KcpError::Protocol { message },
            KcpCoreError::Buffer { message } => KcpError::Buffer { message },
            KcpCoreError::ConnectionLost => KcpError::Connection { kind: ConnectionError::Lost },
        }
    }

    /// This is a protocol error with the given text.
    pub open spec fn is_protocol(self, text: Seq<char>) -> bool {
        self matches KcpError::Protocol { message } && message@ == text
    }

    /// This is a buffer error with the given text.
    pub open spec fn is_buffer(self, text: Seq<char>) -> bool {
        self matches KcpError::Buffer { message } && message@ == text
    }

    /// This is a session error with the given text.
    pub open spec fn is_session(self, text: Seq<char>) -> bool {
        self matches KcpError::Session { message } && message@ == text
    }

    /// This is a configuration error with the given text.
    pub open spec fn is_config(self, text: Seq<char>) -> bool {
        self matches KcpError::Config { message } && message@ == text
    }

    /// What the error says.
    pub open spec fn text(self) -> Seq<char> {
        match self {
            KcpError::Io { kind, message } => "I/O error: "@ + message@,
            KcpError::Protocol { message } => "Protocol error: "@ + message@,
            KcpError::Connection { kind } => "Connection error: "@ + kind.text(),
            KcpError::Timeout { timeout_ms } => "Operation timed out after "@ + text::decimal_of(
                timeout_ms as nat,
            ) + "ms"@,
            KcpError::Buffer { message } => "Buffer error: "@ + message@,
            KcpError::Config { message } => "Configuration error: "@ + message@,
            KcpError::Session { message } => "Session error: "@ + message@,
            KcpError::Internal { message } => "Internal error: "@ + message@,
        }
    }

    /// Create an I/O error.
    pub fn io(kind: IoErrorKind, message: &str) -> (r: Self)
        ensures
            r matches KcpError::Io { kind: k, message: m } && k == kind && m@ == message@,
    {
        KcpError::Io { kind, message: message.to_owned() }
    }

    /// Create a protocol error.
    pub fn protocol(message: &str) -> (r: Self)
        ensures
            r.is_protocol(message@),
    {
        KcpError::Protocol { message: message.to_owned() }
    }

    /// Create a connection error.
    pub fn connection(kind: ConnectionError) -> (r: Self)
        ensures
            r == (KcpError::Connection { kind }),
    {
        KcpError::Connection { kind }
    }

    /// Create a timeout error.
    pub fn timeout(timeout_ms: u64) -> (r: Self)
        ensures
            r == (KcpError::Timeout { timeout_ms }),
    {
        KcpError::Timeout { timeout_ms }
    }

    /// Create a buffer error.
    pub fn buffer(message: &str) -> (r: Self)
        ensures
            r.is_buffer(message@),
    {
        KcpError::Buffer { message: message.to_owned() }
    }

    /// Create a config error.
    pub fn config(message: &str) -> (r: Self)
        ensures
            r.is_config(message@),
    {
        KcpError::Config { message: message.to_owned() }
    }

    /// Create a session error.
    pub fn session(message: &str) -> (r: Self)
        ensures
            r.is_session(message@),
    {
        KcpError::Session { message: message.to_owned() }
    }

    /// Create an internal error.
    pub fn internal(message: &str) -> (r: Self)
        ensures
            r matches KcpError::Internal { message: m } && m@ == message@,
    {
        KcpError::Internal { message: message.to_owned() }
    }

    /// The operation may succeed if it is tried again.
    pub open spec fn recoverable(self) -> bool {
        match self {
            KcpError::Io { kind, message } => kind is WouldBlock || kind is TimedOut
                || kind is Interrupted,
            KcpError::Timeout { timeout_ms } => true,
            KcpError::Buffer { message } => true,
            KcpError::Connection { kind } => kind is Lost,
            _ => false,
        }
    }

    /// The connection has to be given up.
    pub open spec fn fatal(self) -> bool {
        match self {
            KcpError::Connection { kind } => kind is Lost || kind is Closed || kind is Reset,
            KcpError::Internal { message } => true,
            _ => false,
        }
    }

    /// The connection is closed.
    pub open spec fn closed(self) -> bool {
        match self {
            KcpError::Connection { kind } => kind is Closed || kind is Reset || kind is Refused,
            KcpError::Io { kind, message } => kind is BrokenPipe || kind is ConnectionAborted
                || kind is ConnectionRefused || kind is ConnectionReset || kind is UnexpectedEof,
            _ => false,
        }
    }

    /// Check if this is a recoverable error.
    pub fn is_recoverable(&self) -> (r: bool)
        ensures
            r == self.recoverable(),
    {
        match self {
            KcpError::Io { kind, message: _ } => match kind {
                IoErrorKind::WouldBlock | IoErrorKind::TimedOut | IoErrorKind::Interrupted => true,
                _ => false,
            },
            KcpError::Timeout { timeout_ms: _ } => true,
            KcpError::Buffer { message: _ } => true,
            KcpError::Connection { kind } => match kind {
                ConnectionError::Lost => true,
                _ => false,
            },
            _ => false,
        }
    }

    /// Check if this is a connection-related error.
    pub fn is_connection_error(&self) -> (r: bool)
        ensures
            r == (*self is Connection),
    {
        match self {
            KcpError::Connection { kind: _ } => true,
            _ => false,
        }
    }

    /// Check if this error ends the connection.
    pub fn is_fatal(&self) -> (r: bool)
        ensures
            r == self.fatal(),
    {
        match self {
            KcpError::Connection { kind } => match kind {
                ConnectionError::Lost | ConnectionError::Closed | ConnectionError::Reset => true,
                _ => false,
            },
            KcpError::Internal { message: _ } => true,
            _ => false,
        }
    }

    /// Check if this error indicates the connection is closed.
    pub fn is_closed(&self) -> (r: bool)
        ensures
            r == self.closed(),
    {
        match self {
            KcpError::Connection { kind } => match kind {
                ConnectionError::Closed | ConnectionError::Reset | ConnectionError::Refused => true,
                _ => false,
            },
            KcpError::Io { kind, message: _ } => match kind {
                IoErrorKind::BrokenPipe
                | IoErrorKind::ConnectionAborted
                | IoErrorKind::ConnectionRefused
                | IoErrorKind::ConnectionReset
                | IoErrorKind::UnexpectedEof => true,
                _ => false,
            },
            _ => false,
        }
    }

    /// The error in words.
    pub fn describe(&self) -> (r: String)
        ensures
            r@ == self.text(),
    {
        match self {
            KcpError::Io { kind: _, message } => joined("I/O error: ", message.as_str()),
            KcpError::Protocol { message } => joined("Protocol error: ", message.as_str()),
            KcpError::Connection { kind } => joined("Connection error: ", kind.describe()),
            KcpError::Timeout { timeout_ms } => {
                let mut s = "Operation timed out after ".to_owned();
                s.append(decimal(*timeout_ms).as_str());
                s.append("ms");
                s
            },
            KcpError::Buffer { message } => joined("Buffer error: ", message.as_str()),
            KcpError::Config { message } => joined("Configuration error: ", message.as_str()),
            KcpError::Session { message } => joined("Session error: ", message.as_str()),
            KcpError::Internal { message } => joined("Internal error: ", message.as_str()),
        }
    }
}

/// A fatal engine error becomes a fatal error, and no other engine error does.
pub proof fn law_fatality_survives_conversion(e: KcpCoreError)
    ensures
        KcpError::of_core(e).fatal() == (e is ConnectionLost),
{
}

/// A conversion changes no word of a protocol or buffer error.
pub proof fn law_text_survives_conversion(e: KcpCoreError)
    requires
        !(e is ConnectionLost),
    ensures
        KcpError::of_core(e).text() == e.text(),
{
}

/// What goes on after an error: a peer that could not be reached in time, an operation that would
/// have had to wait and a full buffer may be tried again, and so may a lost connection. Nothing
/// else may.
pub proof fn law_what_may_be_tried_again(e: KcpError)
    ensures
        e.recoverable() <==> {
            ||| e is Timeout
            ||| e is Buffer
            ||| (e matches KcpError::Connection { kind } && kind == ConnectionError::Lost)
            ||| (e matches KcpError::Io { kind, message } && (kind == IoErrorKind::WouldBlock
                || kind == IoErrorKind::TimedOut || kind == IoErrorKind::Interrupted))
        },
{
}

/// A connection has to be given up when it is lost, closed or reset, or something is wrong inside,
/// and for no other reason.
pub proof fn law_what_ends_a_connection(e: KcpError)
    ensures
        e.fatal() <==> {
            ||| e is Internal
            ||| e matches KcpError::Connection { kind } && (kind == ConnectionError::Lost || kind
                == ConnectionError::Closed || kind == ConnectionError::Reset)
        },
{
}

/// A connection is closed when it says so, has been reset or refused, or the pipe below it is
/// gone.
pub proof fn law_what_is_closed(e: KcpError)
    ensures
        e.closed() <==> {
            ||| (e matches KcpError::Connection { kind } && (kind == ConnectionError::Closed || kind
                == ConnectionError::Reset || kind == ConnectionError::Refused))
            ||| (e matches KcpError::Io { kind, message } && (kind == IoErrorKind::BrokenPipe
                || kind == IoErrorKind::ConnectionAborted || kind
                == IoErrorKind::ConnectionRefused || kind == IoErrorKind::ConnectionReset || kind
                == IoErrorKind::UnexpectedEof))
        },
{
}

/// An engine's error keeps its message, and a lost connection stays one.
pub proof fn law_engine_errors_are_kept(e: KcpCoreError)
    ensures
        e matches KcpCoreError::Protocol { message } ==> KcpError::of_core(e).is_protocol(message@),
        e matches KcpCoreError::Buffer { message } ==> KcpError::of_core(e).is_buffer(message@),
        e is ConnectionLost ==> KcpError::of_core(e) == (KcpError::Connection {
            kind: ConnectionError::Lost,
        }),
{
}

} // verus!
