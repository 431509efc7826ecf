//! Tests of the client side: configuration checking, dispatch, the byte
//! reader, and the engine checks, driven by scripted in-memory streams.

use narwhal::engine::{check_ok_response, check_ping_response, ping};
use narwhal::errors::{ConfigField, Error, ProtocolErrorKind};
use narwhal::http::{Headers, Request, Response};
use narwhal::httpstream::{read_from_stream, ByteStream, HttpStream};
use narwhal::network::{gen_request, get, perform_request};
use narwhal::types::{Client, CommsBackend, TcpClient, TlsFiles};

/// A stream whose exchange always answers a plain `200 OK` ping reply.
struct PingStream;

impl HttpStream for PingStream {
    fn connect(_client: Client) -> Result<PingStream, Error> {
        Ok(PingStream)
    }

    fn request(&mut self, _req: Request) -> Result<Response, Error> {
        Ok(Response { status_code: 200, headers: Headers::new(), body: String::from("OK") })
    }
}

/// A stream that must never be reached: configuration errors come first.
struct UnreachableStream;

impl HttpStream for UnreachableStream {
    fn connect(_client: Client) -> Result<UnreachableStream, Error> {
        panic!("connect was reached although the configuration is incomplete");
    }

    fn request(&mut self, _req: Request) -> Result<Response, Error> {
        panic!("request was reached although the configuration is incomplete");
    }
}

/// A stream that echoes the serialized request back as a response body.
struct EchoStream;

impl HttpStream for EchoStream {
    fn connect(_client: Client) -> Result<EchoStream, Error> {
        Ok(EchoStream)
    }

    fn request(&mut self, req: Request) -> Result<Response, Error> {
        Ok(Response {
            status_code: 200,
            headers: Headers::new(),
            body: narwhal::http::gen_request_string(req),
        })
    }
}

/// A byte source that hands out a fixed byte string block by block.
struct ScriptedBytes {
    data: Vec<u8>,
    pos: usize,
}

impl ByteStream for ScriptedBytes {
    fn read_block(&mut self, max: usize) -> Result<Vec<u8>, Error> {
        let end = self.data.len().min(self.pos + max);
        let block = self.data[self.pos..end].to_vec();
        self.pos = end;
        Ok(block)
    }
}

/// A byte source whose reads fail outright.
struct BrokenBytes;

impl ByteStream for BrokenBytes {
    fn read_block(&mut self, _max: usize) -> Result<Vec<u8>, Error> {
        Err(Error::IoError(String::from("connection reset")))
    }
}

#[test]
fn ping_engine() {
    let c = Client::new_unix(String::from("/var/run/docker.sock"));
    let ping_result = ping::<PingStream, PingStream, PingStream>(c);
    if let Err(ref e) = ping_result {
        println!("{:?}", e);
        assert!(false, "Could not ping engine");
    }
}

#[test]
fn ping_rejects_non_200() {
    let r = check_ping_response(&Response {
        status_code: 500,
        headers: Headers::new(),
        body: String::from("OK"),
    });
    assert_eq!(r, Err(Error::EngineError(String::from("non-200 response from engine"))));
}

#[test]
fn ping_rejects_wrong_body() {
    let r = check_ping_response(&Response {
        status_code: 200,
        headers: Headers::new(),
        body: String::from("KO"),
    });
    assert_eq!(r, Err(Error::EngineError(String::from("Malformed response from engine"))));
}

#[test]
fn check_ok_response_hands_body_on() {
    let r = check_ok_response(Response {
        status_code: 200,
        headers: Headers::new(),
        body: String::from("{\"Containers\": 0}"),
    });
    assert_eq!(r.unwrap(), "{\"Containers\": 0}");
}

#[test]
fn check_ok_response_rejects_other_statuses() {
    let r = check_ok_response(Response {
        status_code: 404,
        headers: Headers::new(),
        body: String::from("missing"),
    });
    assert_eq!(r, Err(Error::EngineError(String::from("non-200 response from server"))));
}

#[test]
fn tls_without_files_is_refused_before_io() {
    let client = Client {
        backend: CommsBackend::TLS,
        socket_path: None,
        tcp_options: Some(TcpClient { host: String::from("127.0.0.1"), port: 2376 }),
        use_tls: true,
        tls_files: None,
    };
    // An `UnreachableStream` panics on connect, so reaching it would fail
    // this test: the configuration is refused before any I/O.
    let r = get::<UnreachableStream, UnreachableStream, UnreachableStream>(client, "/info");
    assert_eq!(r.unwrap_err(), Error::ConfigurationError(ConfigField::TlsFiles));
}

#[test]
fn tls_without_tcp_options_is_refused() {
    let client = Client {
        backend: CommsBackend::TLS,
        socket_path: None,
        tcp_options: None,
        use_tls: true,
        tls_files: Some(TlsFiles {
            key: String::from("key.pem"),
            cert: String::from("cert.pem"),
            ca: String::from("ca.pem"),
        }),
    };
    let r = get::<UnreachableStream, UnreachableStream, UnreachableStream>(client, "/info");
    assert_eq!(r.unwrap_err(), Error::ConfigurationError(ConfigField::TcpOptions));
}

#[test]
fn tcp_without_options_is_refused() {
    let client = Client {
        backend: CommsBackend::TCP,
        socket_path: None,
        tcp_options: None,
        use_tls: false,
        tls_files: None,
    };
    let r = get::<UnreachableStream, UnreachableStream, UnreachableStream>(client, "/info");
    assert_eq!(r.unwrap_err(), Error::ConfigurationError(ConfigField::TcpOptions));
}

#[test]
fn unix_without_path_is_refused() {
    let client = Client {
        backend: CommsBackend::Unix,
        socket_path: None,
        tcp_options: None,
        use_tls: false,
        tls_files: None,
    };
    let r = get::<UnreachableStream, UnreachableStream, UnreachableStream>(client, "/info");
    assert_eq!(r.unwrap_err(), Error::ConfigurationError(ConfigField::SocketPath));
}

#[test]
fn get_sends_host_header_and_path() {
    let c = Client::new_unix(String::from("/var/run/docker.sock"));
    let r = get::<EchoStream, EchoStream, EchoStream>(c, "/version").unwrap();
    assert_eq!(r.body, "GET /version HTTP/1.1\r\nHost: narwhal\r\n\r\n");
}

#[test]
fn gen_request_sets_fixed_host() {
    let req = gen_request("HEAD", "/x", Some(String::from("b")));
    assert_eq!(req.method, "HEAD");
    assert_eq!(req.path, "/x");
    assert_eq!(req.body, Some(String::from("b")));
    assert_eq!(req.headers.len(), 1);
    assert_eq!(req.headers.get("Host").unwrap(), "narwhal");
}

#[test]
fn perform_request_forwards_the_exchange() {
    let req = gen_request("GET", "/_ping", None);
    let r = perform_request(PingStream, req).unwrap();
    assert_eq!(r.status_code, 200);
    assert_eq!(r.body, "OK");
}

#[test]
fn read_from_stream_collects_blocks() {
    // More than one full block, ending short: all bytes come back.
    let mut text = String::new();
    for i in 0..5000 {
        text.push((b'a' + (i % 26) as u8) as char);
    }
    let mut stream = ScriptedBytes { data: text.clone().into_bytes(), pos: 0 };
    assert_eq!(read_from_stream(&mut stream).unwrap(), text);
}

#[test]
fn read_from_stream_block_boundary() {
    // Exactly one full block: a second, empty read ends the message.
    let data = vec![b'x'; 4096];
    let mut stream = ScriptedBytes { data: data.clone(), pos: 0 };
    assert_eq!(read_from_stream(&mut stream).unwrap().into_bytes(), data);
}

#[test]
fn read_from_stream_rejects_invalid_utf8() {
    let mut stream = ScriptedBytes { data: vec![0xff, 0xfe, 0xfd], pos: 0 };
    let r = read_from_stream(&mut stream);
    assert_eq!(r, Err(Error::ProtocolError(ProtocolErrorKind::InvalidEncoding)));
}

#[test]
fn read_from_stream_propagates_read_errors() {
    let mut stream = BrokenBytes;
    let r = read_from_stream(&mut stream);
    assert_eq!(r, Err(Error::IoError(String::from("connection reset"))));
}

#[test]
fn client_constructors_fill_the_selected_backend() {
    let u = Client::new_unix(String::from("/sock"));
    assert!(matches!(u.backend, CommsBackend::Unix));
    assert_eq!(u.socket_path, Some(String::from("/sock")));
    assert!(u.tcp_options.is_none() && u.tls_files.is_none() && !u.use_tls);

    let t = Client::new_tcp(TcpClient { host: String::from("h"), port: 80 });
    assert!(matches!(t.backend, CommsBackend::TCP));
    let opts = t.tcp_options.unwrap();
    assert_eq!(opts.host, "h");
    assert_eq!(opts.port, 80);
    assert!(t.socket_path.is_none() && t.tls_files.is_none() && !t.use_tls);

    let s = Client::new_tls(
        TcpClient { host: String::from("h"), port: 2376 },
        TlsFiles {
            key: String::from("k"),
            cert: String::from("c"),
            ca: String::from("a"),
        },
    );
    assert!(matches!(s.backend, CommsBackend::TLS));
    assert!(s.use_tls);
    let files = s.tls_files.unwrap();
    assert_eq!(files.key, "k");
    assert_eq!(files.cert, "c");
    assert_eq!(files.ca, "a");
}
