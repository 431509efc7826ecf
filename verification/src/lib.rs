//! A minimal, verified HTTP/1.1 request/response codec together with the
//! transport-selection logic of a small container-engine client.
//!
//! The codec serializes requests, parses status lines and headers, and
//! decodes chunked transfer encoding; the client side picks one of three
//! transport backends (Unix socket, TCP, TLS) from a configuration value.
//! The actual sockets live outside this crate, behind the stream traits
//! of the `httpstream` module.

pub mod chunked;
pub mod engine;
pub mod errors;
pub mod http;
pub mod httpstream;
pub mod network;
pub mod roundtrip;
pub mod text;
pub mod types;

pub use errors::ConfigField;
pub use errors::Error;
pub use errors::ProtocolErrorKind;
pub use types::Client;
