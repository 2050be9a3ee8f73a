use bytes::Bytes;
use simple_http::http::{HTTPResponse, HeaderVal, HeadersMap, ResponseStatus};
use simple_http::http1_1::{
    deserialize_req, headers_to_string, is_request, serialize_res, split_whitespace, status_name, status_to_string,
    white_space, RequestLines, Server,
};

fn lines(ls: &[&str]) -> Vec<String> {
    ls.iter().map(|l| String::from(*l)).collect()
}

fn handler(_req: simple_http::http::HTTPRequest, _resp: &mut HTTPResponse) {}

#[test]
fn server_keeps_its_handler() {
    let s = Server::new(handler as fn(simple_http::http::HTTPRequest, &mut HTTPResponse));
    let mut resp = HTTPResponse::default();
    (s.handler)(simple_http::http::HTTPRequest::new("GET", "/", "HTTP/1.1"), &mut resp);
    assert_eq!(resp.status, ResponseStatus::OK);
}

#[test]
fn words_of_a_request_line() {
    assert_eq!(split_whitespace("  GET\t/index.html  HTTP/1.1 "), vec!["GET", "/index.html", "HTTP/1.1"]);
    assert_eq!(split_whitespace("a\u{3000}b\u{a0}c"), vec!["a", "b", "c"]);
    assert!(split_whitespace(" \r\n").is_empty());
    assert!(white_space('\u{2028}'));
    assert!(!white_space('x'));
}

#[test]
fn request_is_read_from_lines() {
    let ls = lines(&[
        "GET /slow HTTP/1.1",
        "Host: localhost:7878",
        "Connection:keep-alive  ",
        "X-Time: 12:30",
        "Host:  other ",
    ]);
    assert!(is_request(&ls));
    let req = deserialize_req(&ls);
    assert_eq!(req.method, "GET");
    assert_eq!(req.path, "/slow");
    assert_eq!(req.protocol, "HTTP/1.1");
    assert_eq!(req.headers.len(), 3);
    // A repeated field keeps its last value, and its first place.
    assert_eq!(req.headers.entry(0).0, "Host");
    assert_eq!(req.headers.get("Host"), Some(&HeaderVal::Single(String::from("other"))));
    assert_eq!(req.headers.get("Connection"), Some(&HeaderVal::Single(String::from("keep-alive"))));
    assert_eq!(req.headers.get("X-Time"), Some(&HeaderVal::Single(String::from("12:30"))));
    assert!(req.body.is_none());
    assert!(req.trailers.is_none());
}

#[test]
fn malformed_requests_are_recognised() {
    assert!(!is_request(&lines(&[])));
    assert!(!is_request(&lines(&["GET /"])));
    assert!(!is_request(&lines(&["GET / HTTP/1.1", "no colon here"])));
    assert!(is_request(&lines(&["GET / HTTP/1.1 extra"])));
}

#[test]
fn status_phrases() {
    assert_eq!(status_to_string(&ResponseStatus::OK), "OK");
    assert_eq!(status_to_string(&ResponseStatus::NotFound), "NOT FOUND");
    assert_eq!(status_to_string(&ResponseStatus::InternalServerError), "INTERNAL SERVER ERROR");
    assert_eq!(status_to_string(&ResponseStatus::HTTPVersionNotSupported), "H T T P VERSION NOT SUPPORTED");
    assert_eq!(status_name(&ResponseStatus::OK), "Ok");
}

#[test]
fn header_lines() {
    let mut h = HeadersMap::new();
    h.insert(String::from("Content-Length"), HeaderVal::Single(String::from("5")));
    h.insert(String::from("Accept"), HeaderVal::Multiple(vec![String::from("a"), String::from("b")]));
    assert_eq!(headers_to_string(&h), "Content-Length: 5\r\nAccept: a, b\r\n");
    assert_eq!(headers_to_string(&HeadersMap::new()), "");
}

#[test]
fn response_bytes() {
    let mut r = HTTPResponse::default();
    r.text(String::from("hi"));
    r.status(ResponseStatus::NotFound);
    assert_eq!(serialize_res(&r), Bytes::from("HTTP/1.1 404 NOT FOUND\r\nContent-Length: 2\r\n\r\nhi"));
    let empty = HTTPResponse::default();
    assert_eq!(serialize_res(&empty), Bytes::from("HTTP/1.1 200 OK\r\nContent-Length: 0\r\n\r\n"));
}

#[test]
fn request_lines_end_at_an_empty_line() {
    let mut r = RequestLines::new();
    assert!(r.push_line(String::from("GET / HTTP/1.1")).is_none());
    assert!(r.push_line(String::from("Host: x")).is_none());
    let done = r.push_line(String::new()).unwrap();
    assert_eq!(done, lines(&["GET / HTTP/1.1", "Host: x"]));
    assert!(r.lines.is_empty());
    assert_eq!(r.push_line(String::new()), Some(vec![]));
}
