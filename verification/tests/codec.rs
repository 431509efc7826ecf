//! Tests of the HTTP codec: request serialization, response parsing and
//! chunked-body decoding.

use narwhal::chunked::parse_chunked;
use narwhal::errors::{Error, ProtocolErrorKind};
use narwhal::http::{gen_request_string, parse_response, Headers, Request};

#[test]
fn http_response_parsing() {
    let response = "HTTP/1.1 304 test\r\nheader: value\r\n\
                    header2: value2\r\n\r\nbody\r\nbody2";
    let parsed = parse_response(response);
    if let Err(ref e) = parsed {
        println!("{:?}", e);
        assert!(false, "Could not parse HTTP response");
    } else {
        let r = parsed.unwrap();
        assert_eq!(r.status_code, 304);

        assert!(r.headers.contains_key("header"), "HTTP headers not correctly parsed");
        assert!(r.headers.contains_key("header2"), "HTTP headers not correctly parsed");

        assert_eq!(r.headers.get("header").unwrap(), "value");
        assert_eq!(r.headers.get("header2").unwrap(), "value2");

        assert_eq!(r.body, "body\r\nbody2");
    }
}

#[test]
fn http_request_generating() {
    let mut request = Request {
        method: String::from("GET"),
        path: String::from("/test"),
        headers: Headers::new(),
        body: None,
    };
    request.headers.insert(String::from("header"), String::from("value"));
    let request_str = gen_request_string(request);
    assert_eq!(request_str, "GET /test HTTP/1.1\r\nheader: value\r\n\r\n");
}

#[test]
fn gen_http_request_with_body() {
    let request = Request {
        method: String::from("POST"),
        path: String::from("/test"),
        headers: Headers::new(),
        body: Some(String::from("testbody")),
    };
    let request_str = gen_request_string(request);
    assert_eq!(request_str, "POST /test HTTP/1.1\r\n\r\ntestbody");
}

#[test]
fn chunked_parsing() {
    let test_str = "4\r\n\
                    Wiki\r\n\
                    5\r\n\
                    pedia\r\n\
                    E\r\n in\r\n\
                    \r\n\
                    chunks.\r\n\
                    0\r\n\
                    \r\n";

    assert_eq!(parse_chunked(test_str).unwrap(), "Wikipedia in\r\n\r\nchunks.");
}

#[test]
fn chunked_zero_only() {
    assert_eq!(parse_chunked("0\r\n\r\n").unwrap(), "");
}

#[test]
fn chunked_ignores_trailers() {
    assert_eq!(parse_chunked("1\r\na\r\n0\r\nX-Trailer: v\r\n\r\n").unwrap(), "a");
}

#[test]
fn chunked_bad_length_token() {
    let r = parse_chunked("zz\r\ndata\r\n0\r\n\r\n");
    assert_eq!(r, Err(Error::ProtocolError(ProtocolErrorKind::InvalidChunkLength)));
}

#[test]
fn chunked_empty_length_token() {
    let r = parse_chunked("\r\ndata");
    assert_eq!(r, Err(Error::ProtocolError(ProtocolErrorKind::InvalidChunkLength)));
}

#[test]
fn chunked_length_overflow() {
    // Nine hex digits denote more than a 32-bit counter holds.
    let r = parse_chunked("fffffffff\r\ndata");
    assert_eq!(r, Err(Error::ProtocolError(ProtocolErrorKind::InvalidChunkLength)));
}

#[test]
fn response_missing_status_line() {
    let r = parse_response("");
    assert_eq!(r.unwrap_err(), Error::ProtocolError(ProtocolErrorKind::MalformedStatusLine));
}

#[test]
fn response_garbage_status_line() {
    let r = parse_response("not a status line\r\n\r\n");
    assert_eq!(r.unwrap_err(), Error::ProtocolError(ProtocolErrorKind::MalformedStatusLine));
}

#[test]
fn response_zero_status_is_error() {
    // A status line that parses to 0 must surface as an error, never as a
    // silently returned code of 0.
    let r = parse_response("HTTP/1.1 0 sentinel\r\n\r\nbody");
    assert_eq!(r.unwrap_err(), Error::ProtocolError(ProtocolErrorKind::MalformedStatusLine));
}

#[test]
fn response_status_code_too_large() {
    let r = parse_response("HTTP/1.1 65536 big\r\n\r\n");
    assert_eq!(r.unwrap_err(), Error::ProtocolError(ProtocolErrorKind::MalformedStatusLine));
    let ok = parse_response("HTTP/1.1 65535 big\r\n\r\n").unwrap();
    assert_eq!(ok.status_code, 65535);
}

#[test]
fn response_status_match_is_unanchored() {
    // The status pattern is searched for anywhere in the line, not
    // anchored to its start.
    let r = parse_response("xxHTTP/1.1 204 No\r\n\r\n").unwrap();
    assert_eq!(r.status_code, 204);
}

#[test]
fn response_malformed_header_line() {
    let r = parse_response("HTTP/1.1 200 ok\r\nbadheader\r\n\r\nbody");
    assert_eq!(r.unwrap_err(), Error::ProtocolError(ProtocolErrorKind::MalformedHeaderLine));
}

#[test]
fn response_without_blank_line_has_empty_body() {
    let r = parse_response("HTTP/1.1 200 ok\r\nheader: value\r\n").unwrap();
    assert_eq!(r.body, "");
    // The split leaves one final empty line, which opens the body.
    assert_eq!(r.headers.get("header").unwrap(), "value");
}

#[test]
fn response_header_empty_value() {
    let r = parse_response("HTTP/1.1 200 ok\r\nX-Empty: \r\n\r\n").unwrap();
    assert_eq!(r.headers.get("X-Empty").unwrap(), "");
}

#[test]
fn response_duplicate_header_last_wins() {
    let r = parse_response("HTTP/1.1 200 ok\r\na: one\r\na: two\r\n\r\n").unwrap();
    assert_eq!(r.headers.get("a").unwrap(), "two");
    assert_eq!(r.headers.len(), 1);
}

#[test]
fn response_chunked_body_is_decoded() {
    let text = "HTTP/1.1 200 ok\r\nTransfer-Encoding: chunked\r\n\r\n\
                4\r\nWiki\r\n0\r\n\r\n";
    let r = parse_response(text).unwrap();
    assert_eq!(r.body, "Wiki");
}

#[test]
fn response_chunked_encoding_is_case_sensitive() {
    // Only the exact value `chunked` triggers decoding.
    let text = "HTTP/1.1 200 ok\r\nTransfer-Encoding: Chunked\r\n\r\n\
                4\r\nWiki\r\n0\r\n\r\n";
    let r = parse_response(text).unwrap();
    assert_eq!(r.body, "4\r\nWiki\r\n0\r\n\r\n");
}

#[test]
fn response_bad_chunked_body() {
    let text = "HTTP/1.1 200 ok\r\nTransfer-Encoding: chunked\r\n\r\nnothex\r\nx";
    let r = parse_response(text);
    assert_eq!(r.unwrap_err(), Error::ProtocolError(ProtocolErrorKind::MalformedChunkedBody));
}

#[test]
fn serialize_then_parse_round_trip() {
    // Serialize a request, then parse a response built from the same
    // headers and body: entries and body come back verbatim.
    let mut request = Request {
        method: String::from("GET"),
        path: String::from("/round"),
        headers: Headers::new(),
        body: Some(String::from("payload\r\nwith a break")),
    };
    request.headers.insert(String::from("Host"), String::from("narwhal"));
    request.headers.insert(String::from("X-Trip"), String::from("there and back"));
    let serialized = gen_request_string(request);
    let request_line = "GET /round HTTP/1.1\r\n";
    assert!(serialized.starts_with(request_line));
    let mut response_text = String::from("HTTP/1.1 200 ok\r\n");
    response_text.push_str(&serialized[request_line.len()..]);
    let r = parse_response(&response_text).unwrap();
    assert_eq!(r.status_code, 200);
    assert_eq!(r.headers.len(), 2);
    assert_eq!(r.headers.get("Host").unwrap(), "narwhal");
    assert_eq!(r.headers.get("X-Trip").unwrap(), "there and back");
    assert_eq!(r.body, "payload\r\nwith a break");
}

#[test]
fn chunked_truncated_data_keeps_what_came() {
    // The walk ends mid-chunk: what was reassembled so far comes back.
    assert_eq!(parse_chunked("5\r\nab").unwrap(), "ab\r\n");
}

#[test]
fn response_status_code_leading_zeros() {
    let r = parse_response("HTTP/1.1 0304 test\r\n\r\n").unwrap();
    assert_eq!(r.status_code, 304);
}

#[test]
fn response_header_names_are_case_sensitive() {
    // Only the exact name `Transfer-Encoding` triggers decoding.
    let text = "HTTP/1.1 200 ok\r\ntransfer-encoding: chunked\r\n\r\n\
                4\r\nWiki\r\n0\r\n\r\n";
    let r = parse_response(text).unwrap();
    assert_eq!(r.body, "4\r\nWiki\r\n0\r\n\r\n");
}

#[test]
fn headers_insert_overwrites() {
    let mut h = Headers::new();
    h.insert(String::from("a"), String::from("1"));
    h.insert(String::from("b"), String::from("2"));
    h.insert(String::from("a"), String::from("3"));
    assert_eq!(h.len(), 2);
    assert_eq!(h.get("a").unwrap(), "3");
    assert_eq!(h.get("b").unwrap(), "2");
    assert_eq!(h.get("c"), None);
    assert!(!h.contains_key("c"));
}
