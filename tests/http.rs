use minihttp::dispatch::{decimal_text, on_lookup, on_request, Action};
use minihttp::headers::HeaderMap;
use minihttp::http::{RequestMethod, RequestMethodParseError};
use minihttp::request::{ParseError, Request};
use minihttp::response::Response;

const ALL: [(&str, RequestMethod); 9] = [
    ("GET", RequestMethod::GET),
    ("POST", RequestMethod::POST),
    ("PUT", RequestMethod::PUT),
    ("DELETE", RequestMethod::DELETE),
    ("HEAD", RequestMethod::HEAD),
    ("CONNECT", RequestMethod::CONNECT),
    ("OPTIONS", RequestMethod::OPTIONS),
    ("TRACE", RequestMethod::TRACE),
    ("PATCH", RequestMethod::PATCH),
];

#[test]
fn method_tokens_round_trip() {
    for (token, method) in ALL {
        assert_eq!(RequestMethod::parse(token), Ok(method));
        assert_eq!(method.as_str(), token);
        assert_eq!(token.parse::<RequestMethod>(), Ok(method));
    }
}

#[test]
fn other_method_tokens_are_refused() {
    for token in ["get", "GET ", " GET", "", "FETCH", "PATCHES", "POS"] {
        assert_eq!(RequestMethod::parse(token), Err(RequestMethodParseError));
    }
}

#[test]
fn parses_simple_get() {
    let req = Request::new(b"GET /index.html HTTP/1.1\r\nHost: example.com\r\n\r\n").unwrap();
    assert_eq!(req.method, RequestMethod::GET);
    assert_eq!(req.path, "/index.html");
    assert_eq!(req.version, "HTTP/1.1");
    assert_eq!(req.headers.len(), 1);
    assert_eq!(req.headers.get("Host"), Some("example.com".to_string()));
    assert_eq!(req.body, None);
}

#[test]
fn zero_padding_is_ignored() {
    let text: &[u8] = b"POST /form HTTP/1.1\r\nA: 1\r\nB:   2 \r\n\r\npayload";
    let mut padded = text.to_vec();
    padded.extend(std::iter::repeat(0u8).take(64));
    let a = Request::new(text).unwrap();
    let b = Request::new(&padded).unwrap();
    assert_eq!(a.method, b.method);
    assert_eq!(a.path, b.path);
    assert_eq!(a.version, b.version);
    assert_eq!(a.headers.len(), b.headers.len());
    for i in 0..a.headers.len() {
        assert_eq!(a.headers.key_at(i), b.headers.key_at(i));
        assert_eq!(a.headers.value_at(i), b.headers.value_at(i));
    }
    assert_eq!(a.body, b.body);
    assert_eq!(b.body, Some(b"payload".to_vec()));
    assert_eq!(b.headers.get("B"), Some("2 ".to_string()));
}

#[test]
fn later_duplicate_header_wins() {
    let req = Request::new(b"GET / HTTP/1.1\r\nHost: a\r\nHost: b\r\n\r\n").unwrap();
    assert_eq!(req.headers.len(), 1);
    assert_eq!(req.headers.get("Host"), Some("b".to_string()));
}

#[test]
fn header_value_keeps_later_colons() {
    let req = Request::new(b"GET / HTTP/1.1\r\nHost: localhost:8080\r\n\r\n").unwrap();
    assert_eq!(req.headers.get("Host"), Some("localhost:8080".to_string()));
}

#[test]
fn body_lines_are_rejoined() {
    let req = Request::new(b"PUT /f HTTP/1.1\r\nX: y\r\n\r\nfirst\r\nsecond").unwrap();
    assert_eq!(req.body, Some(b"first\r\nsecond".to_vec()));
}

#[test]
fn headers_without_blank_line_have_no_body() {
    let req = Request::new(b"GET / HTTP/1.1\r\nX: y").unwrap();
    assert_eq!(req.headers.get("X"), Some("y".to_string()));
    assert_eq!(req.body, None);
}

#[test]
fn missing_version_is_malformed() {
    let raw: &[u8] = b"GET /index.html\r\nHost: example.com\r\n\r\n";
    assert_eq!(Request::new(raw).unwrap_err(), ParseError::MalformedStatusLine);
    assert!(matches!(on_request(raw, "."), Action::Close));
}

#[test]
fn unknown_method_is_invalid() {
    assert_eq!(Request::new(b"FETCH / HTTP/1.1\r\n\r\n").unwrap_err(), ParseError::InvalidMethod);
}

#[test]
fn short_status_line_is_malformed_whatever_its_tokens() {
    assert_eq!(Request::new(b"").unwrap_err(), ParseError::MalformedStatusLine);
    assert_eq!(Request::new(b"GET\r\n\r\n").unwrap_err(), ParseError::MalformedStatusLine);
    assert_eq!(Request::new(b"FETCH /x\r\n\r\n").unwrap_err(), ParseError::MalformedStatusLine);
    assert_eq!(Request::new(b"\xff /x\r\n\r\n").unwrap_err(), ParseError::MalformedStatusLine);
}

#[test]
fn unicode_whitespace_is_trimmed_from_values() {
    let req = Request::new("GET / HTTP/1.1\r\nK: \u{A0}\u{3000} v \r\nL:\u{2003}w\r\n\r\n".as_bytes()).unwrap();
    assert_eq!(req.headers.get("K"), Some("v ".to_string()));
    assert_eq!(req.headers.get("L"), Some("w".to_string()));
}

#[test]
fn header_without_colon_is_malformed() {
    let r = Request::new(b"GET / HTTP/1.1\r\nHost example.com\r\n\r\n");
    assert_eq!(r.unwrap_err(), ParseError::MalformedHeader);
}

#[test]
fn invalid_text_is_refused() {
    assert_eq!(Request::new(b"GET /\xff HTTP/1.1\r\n\r\n").unwrap_err(), ParseError::InvalidUtf8);
    assert_eq!(Request::new(b"GET / HTTP/1.1\r\nKey: \xc3\r\n\r\n").unwrap_err(), ParseError::InvalidUtf8);
}

#[test]
fn serializes_headers_in_insertion_order() {
    let mut headers = HeaderMap::new();
    headers.insert("A".to_string(), "1".to_string());
    headers.insert("B".to_string(), "2".to_string());
    let bytes = Response::new("200 Ok".to_string(), headers, Some(b"hi".to_vec())).into_bytes();
    assert_eq!(bytes, b"HTTP/1.1 200 Ok\r\nA: 1\r\nB: 2\r\n\r\nhi".to_vec());
}

#[test]
fn reinserting_a_key_keeps_its_place() {
    let mut headers = HeaderMap::new();
    headers.insert("A".to_string(), "1".to_string());
    headers.insert("B".to_string(), "2".to_string());
    headers.insert("A".to_string(), "3".to_string());
    let bytes = Response::new("204 No Content".to_string(), headers, None).into_bytes();
    assert_eq!(bytes, b"HTTP/1.1 204 No Content\r\nA: 3\r\nB: 2\r\n\r\n".to_vec());
}

#[test]
fn serialized_head_parses_back() {
    let mut headers = HeaderMap::new();
    headers.insert("Server".to_string(), "mini".to_string());
    headers.insert("X-Note".to_string(), "a: b".to_string());
    let bytes = Response::new("301 Moved".to_string(), headers, None).into_bytes();
    let text = String::from_utf8(bytes).unwrap();
    let mut lines = text.split("\r\n");
    assert_eq!(lines.next(), Some("HTTP/1.1 301 Moved"));
    assert_eq!(lines.next(), Some("Server: mini"));
    assert_eq!(lines.next(), Some("X-Note: a: b"));
    assert_eq!(lines.next(), Some(""));
}

#[test]
fn post_is_not_allowed() {
    match on_request(b"POST /anything HTTP/1.1\r\nHost: x\r\n\r\n", ".") {
        Action::Send(bytes) => assert_eq!(
            bytes,
            b"HTTP/1.1 405 Method Not Allowed\r\nConnection: close\r\nContent-Length: 0\r\n\r\n".to_vec()
        ),
        _ => panic!("expected a response"),
    }
}

#[test]
fn get_asks_for_the_file() {
    match on_request(b"GET /index.html HTTP/1.1\r\n\r\n", "./www") {
        Action::Read(key) => assert_eq!(key, "./www/index.html"),
        _ => panic!("expected a lookup"),
    }
}

#[test]
fn found_file_is_sent() {
    let file = b"<h1>hello</h1>\n".to_vec();
    let mut expected = b"HTTP/1.1 200 Ok\r\nContent-Type: text/html; charset=UTF-8\r\nContent-Length: 15\r\nConnection: close\r\n\r\n".to_vec();
    expected.extend_from_slice(&file);
    assert_eq!(on_lookup(Some(file)), expected);
}

#[test]
fn missing_file_is_not_found() {
    assert_eq!(
        on_lookup(None),
        b"HTTP/1.1 404 Not Found\r\nConnection: close\r\nContent-Length: 0\r\n\r\n".to_vec()
    );
}

#[test]
fn decimal_text_of_lengths() {
    assert_eq!(decimal_text(0), "0");
    assert_eq!(decimal_text(7), "7");
    assert_eq!(decimal_text(10), "10");
    assert_eq!(decimal_text(8192), "8192");
    assert_eq!(decimal_text(usize::MAX), usize::MAX.to_string());
}

#[test]
fn empty_file_has_zero_length() {
    assert_eq!(
        on_lookup(Some(Vec::new())),
        b"HTTP/1.1 200 Ok\r\nContent-Type: text/html; charset=UTF-8\r\nContent-Length: 0\r\nConnection: close\r\n\r\n".to_vec()
    );
}

#[test]
fn method_error_has_a_message() {
    assert_eq!(RequestMethodParseError.message(), "invalid HTTP request method");
}
