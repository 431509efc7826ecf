//! Error values shared by the codec and the transport layer.

use vstd::prelude::*;

verus! {

/// The precise way in which a response failed to parse.
#[derive(Debug, Clone, Copy, PartialEq, Eq)]
pub enum ProtocolErrorKind {
    /// The first line of the response is absent or does not carry
    /// `HTTP/<digits>.<digits> <status> <word>`.
    MalformedStatusLine,
    /// A non-blank line before the header/body separator is not of the
    /// form `<token>: <value>`.
    MalformedHeaderLine,
    /// A chunk-length line of a chunked body is not valid hexadecimal.
    InvalidChunkLength,
    /// A body declared as chunked could not be decoded.
    MalformedChunkedBody,
    /// The raw response bytes are not valid UTF-8.
    InvalidEncoding,
}

/// The configuration field that was missing for the selected backend.
#[derive(Debug, Clone, Copy, PartialEq, Eq)]
pub enum ConfigField {
    /// The Unix backend was selected without a socket path.
    SocketPath,
    /// The TCP or TLS backend was selected without host and port.
    TcpOptions,
    /// The TLS backend was selected without key, certificate and CA files.
    TlsFiles,
}

/// Every failure this crate reports.
///
/// Connection and I/O failures originate outside the verified code (in the
/// socket backends) and carry the backend's description; protocol,
/// configuration and engine failures are produced by verified code and
/// carry a precise reason.
#[derive(Debug, PartialEq, Eq)]
pub enum Error {
    /// The socket or TLS session could not be established.
    ConnectionError(String),
    /// A write to or read from an established connection failed.
    IoError(String),
    /// The response bytes do not form a well-formed HTTP/1.1 response.
    ProtocolError(ProtocolErrorKind),
    /// A configuration field required by the selected backend is absent.
    ConfigurationError(ConfigField),
    /// The engine answered, but not with the expected reply.
    EngineError(String),
}

} // verus!
