//! The dispatcher: build a request, pick the backend the configuration
//! selects, and perform one exchange.

use vstd::prelude::*;
use vstd::string::*;

use crate::errors::ConfigField;
use crate::errors::Error;
use crate::http::{Headers, Request, Response};
use crate::httpstream::HttpStream;
use crate::types::Client;
use crate::types::CommsBackend;

verus! {

/// Build a request with the fixed `Host: narwhal` header the engine is
/// addressed by.
pub fn gen_request(method: &str, path: &str, body: Option<String>) -> (req: Request)
    ensures
        req.method@ == method@,
        req.path@ == path@,
        req.body == body,
        req.headers@ == seq![("Host"@, "narwhal"@)],
        req.headers.wf(),
{
    let mut headers = Headers::new();
    headers.insert(String::from_str("Host"), String::from_str("narwhal"));
    proof {
        assert(headers@ =~= seq![("Host"@, "narwhal"@)]);
    }
    Request {
        method: String::from_str(method),
        path: String::from_str(path),
        headers,
        body,
    }
}

/// Perform one exchange on an already-connected stream. What comes back
/// is whatever the transport's exchange reports: never a configuration
/// refusal and never an engine judgment.
pub fn perform_request<T: HttpStream>(stream: T, req: Request) -> (r: Result<Response, Error>)
    ensures
        r matches Err(e) ==> !(e matches Error::ConfigurationError(_)) && !(
        e matches Error::EngineError(_)),
{
    let mut stream = stream;
    stream.request(req)
}

/// Perform a GET request against the backend the client configuration
/// selects: `U` carries Unix-socket exchanges, `T` plain TCP ones and
/// `S` TLS ones.
///
/// A configuration whose selected backend misses its fields is refused
/// here, before any connection is attempted — and only such a
/// configuration is: on a complete one, whatever fails is the backend's
/// own failure, never a configuration error.
pub fn get<U: HttpStream, T: HttpStream, S: HttpStream>(client: Client, path: &str) -> (r: Result<
    Response,
    Error,
>)
    ensures
        r == Err::<Response, Error>(Error::ConfigurationError(ConfigField::SocketPath)) <==> (
        client.backend is Unix && client.socket_path is None),
        r == Err::<Response, Error>(Error::ConfigurationError(ConfigField::TcpOptions)) <==> ((
        client.backend is TCP || client.backend is TLS) && client.tcp_options is None),
        r == Err::<Response, Error>(Error::ConfigurationError(ConfigField::TlsFiles)) <==> (
        client.backend is TLS && client.tcp_options is Some && client.tls_files is None),
        (r matches Err(e) && e matches Error::ConfigurationError(_)) ==> !client.config_ok(),
        r matches Err(e) ==> !(e matches Error::EngineError(_)),
        r is Ok ==> client.config_ok(),
{
    let req = gen_request("GET", path, None);
    match client.backend {
        CommsBackend::Unix => {
            if client.socket_path.is_none() {
                return Err(Error::ConfigurationError(ConfigField::SocketPath));
            }
            match U::connect(client) {
                Ok(stream) => perform_request(stream, req),
                Err(e) => Err(e),
            }
        },
        CommsBackend::TCP => {
            if client.tcp_options.is_none() {
                return Err(Error::ConfigurationError(ConfigField::TcpOptions));
            }
            match T::connect(client) {
                Ok(stream) => perform_request(stream, req),
                Err(e) => Err(e),
            }
        },
        CommsBackend::TLS => {
            if client.tcp_options.is_none() {
                return Err(Error::ConfigurationError(ConfigField::TcpOptions));
            }
            if client.tls_files.is_none() {
                return Err(Error::ConfigurationError(ConfigField::TlsFiles));
            }
            match S::connect(client) {
                Ok(stream) => perform_request(stream, req),
                Err(e) => Err(e),
            }
        },
    }
}

} // verus!
