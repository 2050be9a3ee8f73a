//! The demo site that the server program serves: which file answers a
//! request, and the response built around the file's contents.

use vstd::prelude::*;
use vstd::utf8::encode_utf8;
use crate::buf::{bytes_from_vec, bytes_view};
use crate::http::{header_insert, HTTPResponse, HeaderValView, ResponseModel, ResponseStatus};
use crate::http1_1::{split_whitespace, words};
use crate::text::{concat_str, decimal, owned, str_eq, usize_to_string};

verus! {

/// Which file answers a request, and with which status: `GET /` and any
/// request for `/slow` get the index page, another `GET` the file named by
/// its path, anything else the not-found page.
pub open spec fn route(method: Seq<char>, path: Seq<char>) -> (ResponseStatus, Seq<char>) {
    if method == "GET"@ && path == "/"@ {
        (ResponseStatus::OK, "index.html"@)
    } else if path == "/slow"@ {
        (ResponseStatus::OK, "index.html"@)
    } else if method == "GET"@ {
        (ResponseStatus::OK, path)
    } else {
        (ResponseStatus::NotFound, "404.html"@)
    }
}

/// Only `GET` requests, and any request for `/slow`, are answered with a
/// page; every other request gets the not-found page. `GET /` and `/slow`
/// get the index page, and another `GET` the file its path names.
pub proof fn lemma_route_answers_get(method: Seq<char>, path: Seq<char>)
    ensures
        method != "GET"@ && path != "/slow"@ ==> route(method, path) == (ResponseStatus::NotFound, "404.html"@),
        route(method, path).0 == ResponseStatus::OK <==> (method == "GET"@ || path == "/slow"@),
        route(method, path).0 == ResponseStatus::OK || route(method, path).0 == ResponseStatus::NotFound,
        path == "/slow"@ ==> route(method, path) == (ResponseStatus::OK, "index.html"@),
        method == "GET"@ && path == "/"@ ==> route(method, path) == (ResponseStatus::OK, "index.html"@),
        method == "GET"@ && path != "/"@ && path != "/slow"@ ==> route(method, path) == (ResponseStatus::OK, path),
{
}

/// Which file answers a request, and with which status.
pub fn choose_page(method: &str, path: &str) -> (r: (ResponseStatus, String))
    ensures
        (r.0, r.1@) == route(method@, path@),
{
    let get = str_eq(method, "GET");
    if get && str_eq(path, "/") {
        (ResponseStatus::OK, owned("index.html"))
    } else if str_eq(path, "/slow") {
        (ResponseStatus::OK, owned("index.html"))
    } else if get {
        (ResponseStatus::OK, owned(path))
    } else {
        (ResponseStatus::NotFound, owned("404.html"))
    }
}

/// Whether a request path asks for a slow answer (`/slow` simulates a long
/// computation).
pub fn is_slow(path: &str) -> (r: bool)
    ensures
        r == (path@ == "/slow"@),
{
    str_eq(path, "/slow")
}

/// Where a page's file lies.
pub fn page_path(file_name: &str) -> (p: String)
    ensures
        p@ == "static/"@ + file_name@,
{
    concat_str(owned("static/"), file_name)
}

/// The header fields of a page response.
pub open spec fn page_headers(length: nat) -> Seq<(Seq<char>, HeaderValView)> {
    let default_headers = seq![("Content-Length"@, HeaderValView::Single("0"@))];
    let h1 = header_insert(default_headers, "access-control-allow-origin"@, HeaderValView::Single("*"@));
    let h2 = header_insert(h1, "content-type"@, HeaderValView::Single("text/html"@));
    header_insert(h2, "content-length"@, HeaderValView::Single(decimal(length)))
}

/// The response that serves a page: the routed status, or not-found with an
/// empty body when the file could not be read; the file's contents as body,
/// with their length, HTML type, and any origin allowed.
pub fn page_response(status: ResponseStatus, contents: Option<Vec<u8>>) -> (r: HTTPResponse)
    ensures
        r@ == (ResponseModel {
            status: if contents is Some { status } else { ResponseStatus::NotFound },
            headers: page_headers(match contents { Some(c) => c@.len(), None => 0 }),
            body: Some(match contents { Some(c) => c@, None => Seq::empty() }),
            trailers: None,
        }),
{
    let mut response = HTTPResponse::default();
    response.status(status);
    let contents = match contents {
        Some(content) => content,
        None => {
            response.status(ResponseStatus::NotFound);
            Vec::new()
        },
    };
    let content_length = contents.len();
    let length_text = usize_to_string(content_length);
    response.set("access-control-allow-origin", "*");
    response.set("content-type", "text/html");
    response.set("content-length", length_text.as_str());
    response.body = Some(bytes_from_vec(contents));
    response
}

/// The status line and file that the plain HTTP/1.1 pages answer with.
pub open spec fn plain_route(method: Seq<char>, uri: Seq<char>) -> (Seq<char>, Seq<char>) {
    if (method == "GET"@ && uri == "/"@) || uri == "/slow"@ {
        ("HTTP/1.1 200 OK"@, "index.html"@)
    } else {
        ("HTTP/1.1 404 NOT FOUND"@, "404.html"@)
    }
}

/// The status line and file that answer a request line (method, target and
/// protocol).
pub fn plain_page(request_line: &str) -> (r: (String, String))
    requires
        words(request_line@).len() >= 3,
    ensures
        (r.0@, r.1@) == plain_route(words(request_line@)[0], words(request_line@)[1]),
{
    let parts = split_whitespace(request_line);
    assert(crate::http::texts(parts@)[0] == parts@[0]@);
    assert(crate::http::texts(parts@)[1] == parts@[1]@);
    let method = parts[0].as_str();
    let uri = parts[1].as_str();
    if (str_eq(method, "GET") && str_eq(uri, "/")) || str_eq(uri, "/slow") {
        (owned("HTTP/1.1 200 OK"), owned("index.html"))
    } else {
        (owned("HTTP/1.1 404 NOT FOUND"), owned("404.html"))
    }
}

/// A plain HTTP/1.1 response with a text body and its length in bytes.
pub open spec fn plain_response_text(status_line: Seq<char>, contents: Seq<char>) -> Seq<char> {
    status_line + "\r\nContent-Length: "@ + decimal(encode_utf8(contents).len()) + "\r\n\r\n"@ + contents + "\r\n"@
}

/// Writes a plain HTTP/1.1 response with a text body.
pub fn plain_response(status_line: &str, contents: &str) -> (r: String)
    ensures
        r@ == plain_response_text(status_line@, contents@),
{
    let content_length = contents.as_bytes().len();
    let mut response = owned(status_line);
    response = concat_str(response, "\r\nContent-Length: ");
    response = concat_str(response, usize_to_string(content_length).as_str());
    response = concat_str(response, "\r\n\r\n");
    response = concat_str(response, contents);
    response = concat_str(response, "\r\n");
    response
}

} // verus!
