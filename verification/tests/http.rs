use std::mem;

use bytes::Bytes;
use simple_http::http::{hdr_map_size, HTTPRequest, HTTPResponse, HeaderVal, HeadersMap, ResponseStatus};

fn actual_sizeof_val(val: &HeaderVal) -> usize {
    match val {
        HeaderVal::Single(val) => mem::size_of_val(val),
        HeaderVal::Multiple(vals) => {
            let mut size = 0;
            for val in vals {
                size += mem::size_of_val(val);
            }
            size
        }
    }
}

#[test]
fn find_uncompressed_header_list_size_correctly() {
    let mut hdr_map: HeadersMap = HeadersMap::new();

    let header_name_1 = String::from("Accept");
    let header_value_1 = HeaderVal::Single(String::from("text/html"));
    let header_name_2 = String::from("Accept-Encoding");
    let header_value_2 = HeaderVal::Multiple(vec![
        String::from("gzip"),
        String::from("deflate"),
        String::from("br"),
    ]);
    let header_name_3 = String::from("Accept-Language");
    let header_value_3 = HeaderVal::Single(String::from("en-US"));
    let header_name_4 = String::from("Cache-Control");
    let header_value_4 = HeaderVal::Single(String::from("max-age=0"));
    let header_name_5 = String::from("Connection");
    let header_value_5 = HeaderVal::Single(String::from("keep-alive"));
    let header_name_6 = String::from("Cookie");
    let haader_value_6 = HeaderVal::Single(String::from("cookie1=foo; cookie2=bar"));
    let header_name_7 = String::from("Host");
    let header_value_7 = HeaderVal::Single(String::from("localhost:8080"));
    let header_name_8 = String::from("Upgrade-Insecure-Requests");
    let header_value_8 = HeaderVal::Single(String::from("1"));
    let header_name_9 = String::from("User-Agent");
    let header_value_9 = HeaderVal::Single(String::from("Chrome/51.0.2704.103"));

    hdr_map.insert(header_name_1.clone(), header_value_1.clone());
    hdr_map.insert(header_name_2.clone(), header_value_2.clone());
    hdr_map.insert(header_name_3.clone(), header_value_3.clone());
    hdr_map.insert(header_name_4.clone(), header_value_4.clone());
    hdr_map.insert(header_name_5.clone(), header_value_5.clone());
    hdr_map.insert(header_name_6.clone(), haader_value_6.clone());
    hdr_map.insert(header_name_7.clone(), header_value_7.clone());
    hdr_map.insert(header_name_8.clone(), header_value_8.clone());
    hdr_map.insert(header_name_9.clone(), header_value_9.clone());

    let actual_size = mem::size_of_val(&header_name_1)
        + actual_sizeof_val(&header_value_1)
        + mem::size_of_val(&header_name_2)
        + actual_sizeof_val(&header_value_2)
        + mem::size_of_val(&header_name_3)
        + actual_sizeof_val(&header_value_3)
        + mem::size_of_val(&header_name_4)
        + actual_sizeof_val(&header_value_4)
        + mem::size_of_val(&header_name_5)
        + actual_sizeof_val(&header_value_5)
        + mem::size_of_val(&header_name_6)
        + actual_sizeof_val(&haader_value_6)
        + mem::size_of_val(&header_name_7)
        + actual_sizeof_val(&header_value_7)
        + mem::size_of_val(&header_name_8)
        + actual_sizeof_val(&header_value_8)
        + mem::size_of_val(&header_name_9)
        + actual_sizeof_val(&header_value_9)
        + 32 * 9;

    assert_eq!(hdr_map_size(&hdr_map), actual_size);
}

#[test]
fn header_map_size_of_empty_map_is_zero() {
    assert_eq!(hdr_map_size(&HeadersMap::new()), 0);
}

#[test]
fn header_map_read_after_write() {
    let mut m = HeadersMap::new();
    m.insert(String::from("a"), HeaderVal::Single(String::from("1")));
    m.insert(String::from("b"), HeaderVal::Single(String::from("2")));
    assert_eq!(m.get("a"), Some(&HeaderVal::Single(String::from("1"))));
    m.insert(String::from("a"), HeaderVal::Single(String::from("3")));
    assert_eq!(m.get("a"), Some(&HeaderVal::Single(String::from("3"))));
    assert_eq!(m.get("b"), Some(&HeaderVal::Single(String::from("2"))));
    assert_eq!(m.get("c"), None);
    // A replaced field keeps its place.
    assert_eq!(m.len(), 2);
    assert_eq!(m.entry(0).0, "a");
    assert_eq!(m.entry(1).0, "b");
    assert_eq!(m.find("b"), Some(1));
}

#[test]
fn header_value_bytes_join_with_commas() {
    let v = HeaderVal::Multiple(vec![String::from("gzip"), String::from("br")]);
    assert_eq!(v.as_bytes(), Bytes::from("gzip,br"));
    let s = HeaderVal::Single(String::from("text/html"));
    assert_eq!(s.as_bytes(), Bytes::from("text/html"));
}

#[test]
fn default_response_is_ok_with_zero_length() {
    let r = HTTPResponse::default();
    assert_eq!(r.status, ResponseStatus::OK);
    assert_eq!(r.headers.get("Content-Length"), Some(&HeaderVal::Single(String::from("0"))));
    assert_eq!(r.headers.len(), 1);
    assert!(r.body.is_none());
    assert!(r.trailers.is_none());
}

#[test]
fn response_text_sets_body_and_length() {
    let mut r = HTTPResponse::default();
    r.text(String::from("héllo"));
    assert_eq!(r.body, Some(Bytes::from("héllo")));
    // The length counts bytes, not characters.
    assert_eq!(r.headers.get("Content-Length"), Some(&HeaderVal::Single(String::from("6"))));
    assert_eq!(r.headers.len(), 1);
}

#[test]
fn response_bytes_sets_body_and_length() {
    let mut r = HTTPResponse::default();
    r.bytes(Bytes::from(vec![1u8; 1234]));
    assert_eq!(r.headers.get("Content-Length"), Some(&HeaderVal::Single(String::from("1234"))));
    assert_eq!(r.body.as_ref().map(|b| b.len()), Some(1234));
}

#[test]
fn response_set_and_status() {
    let mut r = HTTPResponse::default();
    r.set("x-one", "1");
    r.set_multiple(&vec![("x-two", "2"), ("x-one", "one")]);
    r.status(ResponseStatus::NotFound);
    assert_eq!(r.status, ResponseStatus::NotFound);
    assert_eq!(r.headers.get("x-one"), Some(&HeaderVal::Single(String::from("one"))));
    assert_eq!(r.headers.get("x-two"), Some(&HeaderVal::Single(String::from("2"))));
    assert_eq!(r.headers.len(), 3);
}

#[test]
fn request_new_has_no_fields() {
    let r = HTTPRequest::new("GET", "/", "HTTP/2");
    assert_eq!(r.method, "GET");
    assert_eq!(r.path, "/");
    assert_eq!(r.protocol, "HTTP/2");
    assert_eq!(r.headers.len(), 0);
    assert!(r.body.is_none());
}

#[test]
fn status_codes() {
    assert_eq!(ResponseStatus::OK.code(), 200);
    assert_eq!(ResponseStatus::NotFound.code(), 404);
    assert_eq!(ResponseStatus::TemporaryRedirect.code(), 307);
    assert_eq!(ResponseStatus::HTTPVersionNotSupported.code(), 505);
    assert_eq!(ResponseStatus::UpgradeRequired.code(), 426);
}

#[test]
fn header_maps_compare_regardless_of_order() {
    let mut a = HeadersMap::new();
    a.insert(String::from("a"), HeaderVal::Single(String::from("1")));
    a.insert(String::from("b"), HeaderVal::Multiple(vec![String::from("x"), String::from("y")]));
    let mut b = HeadersMap::new();
    b.insert(String::from("b"), HeaderVal::Multiple(vec![String::from("x"), String::from("y")]));
    b.insert(String::from("a"), HeaderVal::Single(String::from("1")));
    assert_eq!(a, b);
    assert!(a.same_fields_as(&b));
    let mut c = HeadersMap::new();
    c.insert(String::from("a"), HeaderVal::Single(String::from("1")));
    c.insert(String::from("b"), HeaderVal::Multiple(vec![String::from("y"), String::from("x")]));
    assert_ne!(a, c);
    let mut d = HeadersMap::new();
    d.insert(String::from("a"), HeaderVal::Single(String::from("1")));
    assert_ne!(a, d);
    assert_ne!(d, a);
}

#[test]
fn file_response_found_and_missing() {
    let mut r = HTTPResponse::default();
    r.file(Some(b"<p>x</p>".to_vec()), None);
    assert_eq!(r.status, ResponseStatus::OK);
    assert_eq!(r.body, Some(Bytes::from("<p>x</p>")));
    assert_eq!(r.headers.get("Content-Length"), Some(&HeaderVal::Single(String::from("8"))));
    let mut m = HTTPResponse::default();
    m.file(None, Some(b"gone".to_vec()));
    assert_eq!(m.status, ResponseStatus::NotFound);
    assert_eq!(m.body, Some(Bytes::from("gone")));
    assert_eq!(m.headers.get("Content-Length"), Some(&HeaderVal::Single(String::from("4"))));
}
