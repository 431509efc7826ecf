//! The client configuration: which transport backend to use and the
//! parameters that backend needs.

use vstd::prelude::*;

verus! {

/// The three transport backends a client can talk through.
pub enum CommsBackend {
    Unix,
    TCP,
    TLS,
}

/// Host and port of a TCP or TLS endpoint.
pub struct TcpClient {
    pub host: String,
    pub port: u16,
}

/// The three PEM files a TLS session is built from.
pub struct TlsFiles {
    pub key: String,
    pub cert: String,
    pub ca: String,
}

/// One client configuration. Exactly one backend is selected; the fields
/// the other backends would need may stay empty.
pub struct Client {
    pub backend: CommsBackend,
    pub socket_path: Option<String>,
    pub tcp_options: Option<TcpClient>,
    pub use_tls: bool,
    pub tls_files: Option<TlsFiles>,
}

impl Client {
    /// Whether the fields the selected backend requires are present.
    pub open spec fn config_ok(&self) -> bool {
        match self.backend {
            CommsBackend::Unix => self.socket_path is Some,
            CommsBackend::TCP => self.tcp_options is Some,
            CommsBackend::TLS => self.tcp_options is Some && self.tls_files is Some,
        }
    }

    /// A client that talks through a Unix domain socket.
    pub fn new_unix(socket_path: String) -> (c: Client)
        ensures
            c.backend is Unix,
            c.socket_path == Some(socket_path),
            c.tcp_options is None,
            !c.use_tls,
            c.tls_files is None,
            c.config_ok(),
    {
        Client {
            backend: CommsBackend::Unix,
            socket_path: Some(socket_path),
            tcp_options: None,
            use_tls: false,
            tls_files: None,
        }
    }

    /// A client that talks over plain TCP.
    pub fn new_tcp(tcp: TcpClient) -> (c: Client)
        ensures
            c.backend is TCP,
            c.socket_path is None,
            c.tcp_options == Some(tcp),
            !c.use_tls,
            c.tls_files is None,
            c.config_ok(),
    {
        Client {
            backend: CommsBackend::TCP,
            socket_path: None,
            tcp_options: Some(tcp),
            use_tls: false,
            tls_files: None,
        }
    }

    /// A client that talks over TLS-wrapped TCP.
    pub fn new_tls(tcp: TcpClient, tls_files: TlsFiles) -> (c: Client)
        ensures
            c.backend is TLS,
            c.socket_path is None,
            c.tcp_options == Some(tcp),
            c.use_tls,
            c.tls_files == Some(tls_files),
            c.config_ok(),
    {
        Client {
            backend: CommsBackend::TLS,
            socket_path: None,
            tcp_options: Some(tcp),
            use_tls: true,
            tls_files: Some(tls_files),
        }
    }
}

} // verus!
