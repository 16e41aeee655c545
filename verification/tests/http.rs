use network_common::headers::Headers;
use network_common::http::{Method, Request, Response, StatusCode};
use std::str::FromStr;

#[test]
fn parse_request_line_headers_and_body() {
    let text = "GET /index.html HTTP/1.1\r\nHost: localhost\r\nUpgrade: websocket\r\nAccept: */*\r\n\r\nbody";
    let request = Request::parse(text).unwrap();
    assert_eq!(request.method, Method::GET);
    assert_eq!(request.path, "/index.html");
    assert_eq!(request.headers.get("Host").map(|s| s.as_str()), Some("localhost"));
    assert_eq!(request.headers.get("Upgrade").map(|s| s.as_str()), Some("websocket"));
    // The last header line before the blank line is not read.
    assert_eq!(request.headers.get("Accept"), None);
    // The text before the first header line gives an empty name.
    assert_eq!(request.headers.get("").map(|s| s.as_str()), Some(""));
    assert_eq!(request.headers.len(), 3);
    assert_eq!(request.body, "body");
}

#[test]
fn body_is_blank_line_when_nothing_follows() {
    let text = "POST /compile HTTP/1.1\r\nA: 1\r\nB: 2\r\n\r\n";
    let request = Request::parse(text).unwrap();
    assert_eq!(request.method, Method::POST);
    assert_eq!(request.path, "/compile");
    assert_eq!(request.body, "\r\n\r\n");
}

#[test]
fn unknown_method_is_refused() {
    assert!(Request::parse("FOO / HTTP/1.1\r\nA: 1\r\nB: 2\r\n\r\n").is_none());
}

#[test]
fn request_without_headers_is_refused() {
    assert!(Request::parse("GET / HTTP/1.1\r\n\r\n").is_none());
}

#[test]
fn request_line_without_version_is_refused() {
    assert!(Request::parse("GET /\r\nA: 1\r\nB: 2\r\n\r\n").is_none());
}

#[test]
fn header_with_colon_but_no_colon_space_is_refused() {
    assert!(Request::parse("GET / HTTP/1.1\r\nHost:x\r\nB: 2\r\n\r\n").is_none());
}

#[test]
fn header_value_stops_at_second_colon_space() {
    let request = Request::parse("GET / HTTP/1.1\r\nA: b: c\r\nLast: x\r\n\r\n").unwrap();
    assert_eq!(request.headers.get("A").map(|s| s.as_str()), Some("b"));
}

#[test]
fn header_without_colon_has_empty_value() {
    let request = Request::parse("GET / HTTP/1.1\r\nFlag\r\nLast: x\r\n\r\n").unwrap();
    assert_eq!(request.headers.get("Flag").map(|s| s.as_str()), Some(""));
}

#[test]
fn later_header_wins() {
    let request = Request::parse("GET / HTTP/1.1\r\nA: 1\r\nA: 2\r\nLast: x\r\n\r\n").unwrap();
    assert_eq!(request.headers.get("A").map(|s| s.as_str()), Some("2"));
}

#[test]
fn method_names() {
    assert_eq!(Method::from_str("GET"), Ok(Method::GET));
    assert_eq!(Method::from_str("HEAD"), Ok(Method::HEAD));
    assert_eq!(Method::from_str("POST"), Ok(Method::POST));
    assert_eq!(Method::from_str("PUT"), Ok(Method::PUT));
    assert_eq!(Method::from_str("DELETE"), Ok(Method::DELETE));
    assert_eq!(Method::from_str("CONNECT"), Ok(Method::CONNECT));
    assert_eq!(Method::from_str("OPTIONS"), Ok(Method::OPTIONS));
    assert_eq!(Method::from_str("TRACE"), Ok(Method::TRACE));
    assert_eq!(Method::from_str("get"), Err("Failed to parse method"));
}

#[test]
fn default_response_text() {
    let response = Response::new();
    assert_eq!(response.http_version, "HTTP/1.1");
    assert_eq!(response.status, 200);
    assert_eq!(response.as_string(), "HTTP/1.1 200\r\n\r\n\r\n");
}

#[test]
fn response_with_header_and_body() {
    let mut response = Response::new();
    response.headers.insert("Access-Control-Allow-Origin".to_owned(), "http://localhost:5174".to_owned());
    response.body = "done".to_string();
    response.status = 404;
    let text = "HTTP/1.1 404\r\nAccess-Control-Allow-Origin: http://localhost:5174\r\n\r\n\r\ndone";
    assert_eq!(response.as_string(), text);
    assert_eq!(response.as_bytes(), text.as_bytes().to_vec());
}

#[test]
fn response_writes_each_header_once() {
    let mut response = Response::new();
    response.headers.insert("A".to_owned(), "1".to_owned());
    response.headers.insert("B".to_owned(), "2".to_owned());
    response.headers.insert("A".to_owned(), "3".to_owned());
    assert_eq!(response.headers.len(), 2);
    assert_eq!(response.as_string(), "HTTP/1.1 200\r\nA: 3\r\nB: 2\r\n\r\n\r\n");
}

#[test]
fn headers_insert_replaces_in_place() {
    let mut headers = Headers::new();
    headers.insert("a".to_string(), "1".to_string());
    headers.insert("b".to_string(), "2".to_string());
    headers.insert("a".to_string(), "3".to_string());
    assert_eq!(headers.len(), 2);
    let (k, v) = headers.entry(0);
    assert_eq!((k.as_str(), v.as_str()), ("a", "3"));
    let (k, v) = headers.entry(1);
    assert_eq!((k.as_str(), v.as_str()), ("b", "2"));
    assert_eq!(headers.get("c"), None);
}

#[test]
fn status_code_text() {
    assert_eq!(StatusCode::OK.to_string(), "200 OK");
    assert_eq!(StatusCode::BadRequest.to_string(), "400 Bad Request");
    assert_eq!(StatusCode::NotFound.to_string(), "404 Not Found");
    assert_eq!(StatusCode::InternalServerError.to_string(), "500 Internal Server Error");
    assert_eq!(StatusCode::NotFound.code(), 404);
}
