//! Transport-level behaviour: the request parser and the response writer.

use notekeep::request::{parse_http_request, ParseError, Request};
use notekeep::response::write_response;
use notekeep::router::{Dispatch, Method, Router};

#[test]
fn parse_simple_get() {
    let data = b"GET /test HTTP/1.1\r\nHost: example\r\n\r\n".to_vec();
    let req = parse_http_request(&data).expect("parse");
    assert_eq!(req.method, b"GET".to_vec());
    assert_eq!(req.path, b"/test".to_vec());
    assert_eq!(req.body.len(), 0);
}

#[test]
fn parse_post_with_body() {
    let data = b"POST /echo HTTP/1.1\r\nContent-Length: 5\r\n\r\nhello".to_vec();
    let req = parse_http_request(&data).expect("parse");
    assert_eq!(req.method, b"POST".to_vec());
    assert_eq!(req.path, b"/echo".to_vec());
    assert_eq!(req.body, b"hello".to_vec());
}

#[test]
fn write_response_contains_headers_and_body() {
    let out = write_response(200, b"OK", b"text/plain", b"hi");
    let s = String::from_utf8_lossy(&out);
    assert!(s.contains("HTTP/1.1 200 OK"));
    assert!(s.contains("Content-Type: text/plain"));
    assert!(s.ends_with("hi"));
}

#[test]
fn router_dispatches() {
    let mut router: Router<u32> = Router::new();
    router.add_route(Method::Get, b"/x".to_vec(), 7);
    match router.handle(b"GET", b"/x") {
        Dispatch::Handler(h) => assert_eq!(h, 7),
        _ => panic!("expected the registered handler"),
    }
    let out = write_response(200, b"OK", b"text/plain", b"ok");
    let s = String::from_utf8_lossy(&out);
    assert!(s.contains("200 OK"));
}

#[test]
fn parse_recovers_exact_method_path_body() {
    let body: Vec<u8> = (0u16..600).map(|i| (i % 251) as u8).collect();
    let mut data = Vec::new();
    data.extend_from_slice(b"PATCH /api/notes/42 HTTP/1.1\r\n");
    data.extend_from_slice(format!("Content-Length: {}\r\n", body.len()).as_bytes());
    data.extend_from_slice(b"X-Extra: yes\r\n\r\n");
    data.extend_from_slice(&body);
    let req = parse_http_request(&data).expect("parse");
    assert_eq!(req.method, b"PATCH".to_vec());
    assert_eq!(req.path, b"/api/notes/42".to_vec());
    assert_eq!(req.body, body);
}

#[test]
fn parse_headers_lowercased_and_trimmed() {
    let data = b"GET / HTTP/1.1\r\nCoNtEnT-TyPe:  text/html  \r\n\r\n".to_vec();
    let req = parse_http_request(&data).expect("parse");
    let mut found = false;
    for (k, v) in &req.headers {
        if k == b"content-type" {
            assert_eq!(v, b"text/html");
            found = true;
        }
    }
    assert!(found);
    assert_eq!(req.content_length(), 0);
}

#[test]
fn parse_short_body_tolerated() {
    let data = b"POST /x HTTP/1.1\r\nContent-Length: 50\r\n\r\nonly-this".to_vec();
    let req = parse_http_request(&data).expect("parse");
    assert_eq!(req.body, b"only-this".to_vec());
}

#[test]
fn parse_rejects_truncated_stream() {
    let data = b"GET /x HTTP/1.1\r\nHost: h\r\n".to_vec();
    assert!(matches!(parse_http_request(&data), Err(ParseError::InvalidRequest)));
}

#[test]
fn parse_rejects_bad_request_line() {
    let data = b"GETONLY\r\n\r\n".to_vec();
    assert!(matches!(parse_http_request(&data), Err(ParseError::BadRequestLine)));
}

#[test]
fn parse_rejects_oversized_headers() {
    let mut data = b"GET / HTTP/1.1\r\n".to_vec();
    data.resize(1048577, b'a');
    assert!(matches!(parse_http_request(&data), Err(ParseError::HeadersTooLarge)));
}

#[test]
fn parse_rejects_oversized_body() {
    let mut data = Vec::new();
    data.extend_from_slice(b"POST /x HTTP/1.1\r\nContent-Length: 1048577\r\n\r\n");
    data.resize(data.len() + 1048577, b'b');
    assert!(matches!(parse_http_request(&data), Err(ParseError::BodyTooLarge)));
}

#[test]
fn response_content_length_is_exact() {
    let out = write_response(201, b"Created", b"application/json", b"{\"a\":1}");
    let s = String::from_utf8_lossy(&out);
    assert!(s.contains("Content-Length: 7\r\n"));
    assert!(s.contains("Connection: close\r\n"));
    assert!(s.contains("Access-Control-Allow-Methods: GET,POST,PATCH,DELETE,OPTIONS\r\n"));
    assert!(s.ends_with("{\"a\":1}"));
}

#[test]
fn unknown_method_is_method_not_allowed() {
    let router: Router<u32> = Router::new();
    match router.handle(b"PUT", b"/anything") {
        Dispatch::MethodNotAllowed => {}
        _ => panic!("expected a method refusal"),
    }
}

#[test]
fn options_bypasses_routes() {
    let router: Router<u32> = Router::new();
    match router.handle(b"OPTIONS", b"/missing/route") {
        Dispatch::Preflight => {}
        _ => panic!("expected the preflight answer"),
    }
}

#[test]
fn first_matching_route_wins() {
    let mut router: Router<u32> = Router::new();
    router.add_prefix_route(Method::Get, b"/a/".to_vec(), 1);
    router.add_prefix_route(Method::Get, b"/a/b/".to_vec(), 2);
    match router.handle(b"GET", b"/a/b/c") {
        Dispatch::Handler(h) => assert_eq!(h, 1),
        _ => panic!("expected the earlier registration to win"),
    }
    let req = Request {
        method: b"GET".to_vec(),
        path: b"/none".to_vec(),
        headers: Vec::new(),
        body: Vec::new(),
    };
    match router.handle(&req.method, &req.path) {
        Dispatch::NotFound => {}
        _ => panic!("expected no route"),
    }
}
