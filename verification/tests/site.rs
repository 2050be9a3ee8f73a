use bytes::Bytes;
use simple_http::http::{HeaderVal, ResponseStatus};
use simple_http::site::{choose_page, is_slow, page_path, page_response, plain_page, plain_response};

#[test]
fn routes() {
    assert_eq!(choose_page("GET", "/"), (ResponseStatus::OK, String::from("index.html")));
    assert_eq!(choose_page("POST", "/slow"), (ResponseStatus::OK, String::from("index.html")));
    assert_eq!(choose_page("GET", "/css/index.css"), (ResponseStatus::OK, String::from("/css/index.css")));
    assert_eq!(choose_page("POST", "/form"), (ResponseStatus::NotFound, String::from("404.html")));
    assert!(is_slow("/slow"));
    assert!(!is_slow("/slower"));
    assert_eq!(page_path("index.html"), "static/index.html");
}

#[test]
fn page_found() {
    let r = page_response(ResponseStatus::OK, Some(b"<p>hi</p>".to_vec()));
    assert_eq!(r.status, ResponseStatus::OK);
    assert_eq!(r.body, Some(Bytes::from("<p>hi</p>")));
    assert_eq!(r.headers.get("content-length"), Some(&HeaderVal::Single(String::from("9"))));
    assert_eq!(r.headers.get("content-type"), Some(&HeaderVal::Single(String::from("text/html"))));
    assert_eq!(r.headers.get("access-control-allow-origin"), Some(&HeaderVal::Single(String::from("*"))));
    assert_eq!(r.headers.get("Content-Length"), Some(&HeaderVal::Single(String::from("0"))));
    assert_eq!(r.headers.len(), 4);
}

#[test]
fn page_missing() {
    let r = page_response(ResponseStatus::OK, None);
    assert_eq!(r.status, ResponseStatus::NotFound);
    assert_eq!(r.body, Some(Bytes::new()));
    assert_eq!(r.headers.get("content-length"), Some(&HeaderVal::Single(String::from("0"))));
}

#[test]
fn plain_pages() {
    assert_eq!(plain_page("GET / HTTP/1.1"), (String::from("HTTP/1.1 200 OK"), String::from("index.html")));
    assert_eq!(plain_page("PUT /slow HTTP/1.1"), (String::from("HTTP/1.1 200 OK"), String::from("index.html")));
    assert_eq!(plain_page("GET /x HTTP/1.1"), (String::from("HTTP/1.1 404 NOT FOUND"), String::from("404.html")));
    assert_eq!(
        plain_response("HTTP/1.1 200 OK", "héllo"),
        "HTTP/1.1 200 OK\r\nContent-Length: 6\r\n\r\nhéllo\r\n"
    );
}
