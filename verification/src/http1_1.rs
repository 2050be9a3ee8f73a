//! HTTP/1.1: a request read as lines of text, a response written as text
//! followed by the body.

use vstd::prelude::*;
use crate::http::{header_insert, join_strings, texts, value_text, ResponseStatus, HTTPRequest, HeaderVal, HeaderValView, HeaderEntries, HeadersMap, HTTPResponse, ReqHandlerFn, RequestModel, ResponseModel};
use crate::text::{ascii_upper, concat_str, decimal, usize_to_string, char_is_uppercase, char_to_uppercase, chars_of, owned, string_from_chars, string_push, unicode_char_uppercase, unicode_uppercase};
use vstd::string::StrSliceExecFns;
use vstd::utf8::encode_utf8;
use bytes::Bytes;
use crate::buf::{bytes_as_slice, bytes_len, bytes_mut_len, bytes_mut_new, bytes_view, extend_from_slice, freeze};

verus! {

/// An HTTP/1.1 server: the request handler.
pub struct Server<T: ReqHandlerFn + Copy + 'static> {
    pub handler: T,
}

impl<T: ReqHandlerFn + Copy + 'static> Server<T> {
    /// A server that answers with `handler`.
    pub fn new(handler: T) -> (s: Self)
        ensures
            s.handler == handler,
    {
        Self { handler }
    }
}

/// Whether a character has the Unicode `White_Space` property.
pub open spec fn is_white_space(c: char) -> bool {
    let u = c as u32;
    ||| 0x9 <= u <= 0xd
    ||| u == 0x20
    ||| u == 0x85
    ||| u == 0xa0
    ||| u == 0x1680
    ||| 0x2000 <= u <= 0x200a
    ||| u == 0x2028
    ||| u == 0x2029
    ||| u == 0x202f
    ||| u == 0x205f
    ||| u == 0x3000
}

/// Whether a character has the Unicode `White_Space` property.
pub fn white_space(c: char) -> (r: bool)
    ensures
        r == is_white_space(c),
{
    let u = c as u32;
    (0x9 <= u && u <= 0xd) || u == 0x20 || u == 0x85 || u == 0xa0 || u == 0x1680 || (0x2000 <= u && u <= 0x200a)
        || u == 0x2028 || u == 0x2029 || u == 0x202f || u == 0x205f || u == 0x3000
}

/// Reading a text left to right: the words completed so far and the word
/// being read.
pub open spec fn split_words(s: Seq<char>) -> (Seq<Seq<char>>, Seq<char>)
    decreases s.len(),
{
    if s.len() == 0 {
        (Seq::empty(), Seq::empty())
    } else {
        let (done, cur) = split_words(s.drop_last());
        let c = s.last();
        if is_white_space(c) {
            if cur.len() > 0 { (done.push(cur), Seq::empty()) } else { (done, cur) }
        } else {
            (done, cur.push(c))
        }
    }
}

/// The words of a text: its longest runs of characters other than white space.
pub open spec fn words(s: Seq<char>) -> Seq<Seq<char>> {
    let (done, cur) = split_words(s);
    if cur.len() > 0 { done.push(cur) } else { done }
}

/// The words of a string, as `str::split_whitespace` gives them.
pub fn split_whitespace(s: &str) -> (v: Vec<String>)
    ensures
        texts(v@) == words(s@),
{
    let cs = chars_of(s);
    let mut done: Vec<String> = Vec::new();
    let mut cur: Vec<char> = Vec::new();
    let mut i: usize = 0;
    while i < cs.len()
        invariant
            0 <= i <= cs@.len(),
            cs@ == s@,
            texts(done@) == split_words(cs@.take(i as int)).0,
            cur@ == split_words(cs@.take(i as int)).1,
        decreases cs@.len() - i,
    {
        let c = cs[i];
        assert(cs@.take(i + 1).drop_last() =~= cs@.take(i as int));
        if white_space(c) {
            if cur.len() > 0 {
                let ghost prev = texts(done@);
                let word = string_from_chars(cur.as_slice());
                done.push(word);
                assert(texts(done@) =~= prev.push(cur@));
                cur = Vec::new();
            }
        } else {
            cur.push(c);
        }
        i = i + 1;
    }
    assert(cs@.take(cs@.len() as int) =~= cs@);
    if cur.len() > 0 {
        let ghost prev = texts(done@);
        let word = string_from_chars(cur.as_slice());
        done.push(word);
        assert(texts(done@) =~= prev.push(cur@));
    }
    done
}

/// Whether `a` is the first character of `s` other than white space.
pub open spec fn first_non_space(s: Seq<char>, a: int) -> bool {
    &&& 0 <= a < s.len()
    &&& !is_white_space(s[a])
    &&& forall|j: int| 0 <= j < a ==> is_white_space(#[trigger] s[j])
}

/// Whether `b` is the last character of `s` other than white space.
pub open spec fn last_non_space(s: Seq<char>, b: int) -> bool {
    &&& 0 <= b < s.len()
    &&& !is_white_space(s[b])
    &&& forall|j: int| b < j < s.len() ==> is_white_space(#[trigger] s[j])
}

/// A text without leading and trailing white space.
pub open spec fn trimmed(s: Seq<char>) -> Seq<char> {
    if exists|a: int| first_non_space(s, a) {
        let a = choose|a: int| first_non_space(s, a);
        let b = choose|b: int| last_non_space(s, b);
        s.subrange(a, b + 1)
    } else {
        Seq::empty()
    }
}

/// Whether `i` is the position of the first `':'` of `s`.
pub open spec fn first_colon(s: Seq<char>, i: int) -> bool {
    &&& 0 <= i < s.len()
    &&& s[i] == ':'
    &&& forall|j: int| 0 <= j < i ==> #[trigger] s[j] != ':'
}

/// Whether a text holds a `':'`.
pub open spec fn has_colon(s: Seq<char>) -> bool {
    exists|i: int| 0 <= i < s.len() && s[i] == ':'
}

/// A header line split at its first `':'`: the name, and the value without
/// surrounding white space.
pub open spec fn header_line(s: Seq<char>) -> (Seq<char>, Seq<char>) {
    let i = choose|i: int| first_colon(s, i);
    (s.take(i), trimmed(s.skip(i + 1)))
}

/// The header fields of the first `n` lines of a request (the first line is
/// the request line); a repeated name keeps its last value.
pub open spec fn request_headers(lines: Seq<Seq<char>>, n: nat) -> HeaderEntries
    decreases n,
{
    if n <= 1 {
        Seq::empty()
    } else {
        let (k, v) = header_line(lines[n - 1]);
        header_insert(request_headers(lines, (n - 1) as nat), k, HeaderValView::Single(v))
    }
}

/// Whether lines make a request as this server reads it: a request line with
/// method, path and protocol, then header lines that each hold a `':'`.
pub open spec fn request_well_formed(lines: Seq<Seq<char>>) -> bool {
    &&& lines.len() >= 1
    &&& words(lines[0]).len() >= 3
    &&& forall|i: int| 1 <= i < lines.len() ==> has_colon(#[trigger] lines[i])
}

/// The request that lines make: method, path and protocol are the first
/// three words of the request line; no body.
pub open spec fn request_of(lines: Seq<Seq<char>>) -> RequestModel {
    let w = words(lines[0]);
    RequestModel {
        method: w[0],
        path: w[1],
        protocol: w[2],
        headers: request_headers(lines, lines.len()),
        body: None,
        trailers: None,
    }
}

/// The characters of `cs` from `a` up to `b`, as a string.
fn string_of_range(cs: &Vec<char>, a: usize, b: usize) -> (s: String)
    requires
        a <= b <= cs@.len(),
    ensures
        s@ == cs@.subrange(a as int, b as int),
{
    let mut s = String::new();
    let mut i: usize = a;
    while i < b
        invariant
            a <= i <= b <= cs@.len(),
            s@ == cs@.subrange(a as int, i as int),
        decreases b - i,
    {
        string_push(&mut s, cs[i]);
        i = i + 1;
        assert(s@ =~= cs@.subrange(a as int, i as int));
    }
    s
}

/// The characters of `cs` from `start` on, without surrounding white space.
fn trim_from(cs: &Vec<char>, start: usize) -> (s: String)
    requires
        start <= cs@.len(),
    ensures
        s@ == trimmed(cs@.skip(start as int)),
{
    let ghost t = cs@.skip(start as int);
    let n = cs.len();
    let mut a: usize = start;
    while a < n && white_space(cs[a])
        invariant
            start <= a <= n,
            n == cs@.len(),
            t == cs@.skip(start as int),
            forall|j: int| 0 <= j < a - start ==> is_white_space(#[trigger] t[j]),
        decreases n - a,
    {
        assert(t[a - start] == cs@[a as int]);
        a = a + 1;
    }
    if a == n {
        assert(!exists|x: int| first_non_space(t, x)) by {
            if exists|x: int| first_non_space(t, x) {
                let x = choose|x: int| first_non_space(t, x);
                assert(is_white_space(t[x]));
            }
        }
        return String::new();
    }
    assert(t[a - start] == cs@[a as int]);
    assert(first_non_space(t, a - start));
    let mut b: usize = n - 1;
    while white_space(cs[b])
        invariant
            start <= a <= b < n,
            n == cs@.len(),
            t == cs@.skip(start as int),
            !is_white_space(cs@[a as int]),
            forall|j: int| b - start < j < t.len() ==> is_white_space(#[trigger] t[j]),
        decreases b,
    {
        assert(t[b - start] == cs@[b as int]);
        b = b - 1;
    }
    assert(t[b - start] == cs@[b as int]);
    assert(last_non_space(t, b - start));
    let ghost ga = choose|x: int| first_non_space(t, x);
    let ghost gb = choose|x: int| last_non_space(t, x);
    assert(ga == a - start) by {
        if ga < a - start {
            assert(is_white_space(t[ga]));
        }
        if ga > a - start {
            assert(is_white_space(t[a - start]));
        }
    }
    assert(gb == b - start) by {
        if gb < b - start {
            assert(is_white_space(t[b - start]));
        }
        if gb > b - start {
            assert(is_white_space(t[gb]));
        }
    }
    let s = string_of_range(cs, a, b + 1);
    assert(s@ =~= t.subrange(a - start, b - start + 1));
    s
}

/// Splits a header line at its first `':'` into the name and the trimmed value.
fn split_header_line(line: &str) -> (r: (String, String))
    requires
        has_colon(line@),
    ensures
        (r.0@, r.1@) == header_line(line@),
{
    let cs = chars_of(line);
    let n = cs.len();
    let mut i: usize = 0;
    while cs[i] != ':'
        invariant
            0 <= i < cs@.len(),
            n == cs@.len(),
            cs@ == line@,
            has_colon(cs@),
            forall|j: int| 0 <= j < i ==> #[trigger] cs@[j] != ':',
        decreases cs@.len() - i,
    {
        i = i + 1;
        assert(i < cs@.len()) by {
            let x = choose|x: int| 0 <= x < cs@.len() && cs@[x] == ':';
            if x < i {
                assert(cs@[x] != ':');
            }
        }
    }
    assert(first_colon(line@, i as int));
    let ghost c = choose|x: int| first_colon(line@, x);
    assert(c == i) by {
        if c < i {
            assert(cs@[c] != ':');
        }
        if c > i {
            assert(line@[i as int] != ':');
        }
    }
    let key = string_of_range(&cs, 0, i);
    assert(key@ =~= line@.take(i as int));
    let val = trim_from(&cs, i + 1);
    (key, val)
}

/// Reads a request from its lines: the request line and the header lines
/// (a request ends at an empty line, which is not among them).
pub fn deserialize_req(lines: &Vec<String>) -> (r: HTTPRequest)
    requires
        request_well_formed(texts(lines@)),
    ensures
        r@ == request_of(texts(lines@)),
{
    let ghost ls = texts(lines@);
    assert(ls[0] == lines@[0]@);
    let request_line = split_whitespace(lines[0].as_str());
    assert(texts(request_line@)[0] == request_line@[0]@);
    assert(texts(request_line@)[1] == request_line@[1]@);
    assert(texts(request_line@)[2] == request_line@[2]@);
    let method = owned(request_line[0].as_str());
    let path = owned(request_line[1].as_str());
    let protocol = owned(request_line[2].as_str());

    let mut headers = HeadersMap::new();
    let mut i: usize = 1;
    while i < lines.len()
        invariant
            1 <= i <= lines@.len(),
            ls == texts(lines@),
            request_well_formed(ls),
            headers@ == request_headers(ls, i as nat),
        decreases lines@.len() - i,
    {
        assert(ls[i as int] == lines@[i as int]@);
        assert(has_colon(ls[i as int]));
        let (key, val) = split_header_line(lines[i].as_str());
        headers.insert(key, HeaderVal::Single(val));
        i = i + 1;
    }
    HTTPRequest { method, path, protocol, headers, body: None, trailers: None }
}


/// Whether lines make a request as this server reads it.
pub fn is_request(lines: &Vec<String>) -> (r: bool)
    ensures
        r == request_well_formed(texts(lines@)),
{
    let ghost ls = texts(lines@);
    if lines.len() == 0 {
        return false;
    }
    assert(ls[0] == lines@[0]@);
    let request_line = split_whitespace(lines[0].as_str());
    if request_line.len() < 3 {
        return false;
    }
    let mut i: usize = 1;
    while i < lines.len()
        invariant
            1 <= i <= lines@.len(),
            ls == texts(lines@),
            forall|j: int| 1 <= j < i ==> has_colon(#[trigger] ls[j]),
        decreases lines@.len() - i,
    {
        assert(ls[i as int] == lines@[i as int]@);
        let cs = chars_of(lines[i].as_str());
        let mut found = false;
        let mut k: usize = 0;
        while k < cs.len()
            invariant
                0 <= k <= cs@.len(),
                cs@ == ls[i as int],
                found ==> has_colon(cs@),
                !found ==> forall|j: int| 0 <= j < k ==> #[trigger] cs@[j] != ':',
            decreases cs@.len() - k,
        {
            if cs[k] == ':' {
                found = true;
            }
            k = k + 1;
        }
        if !found {
            assert(!has_colon(ls[i as int]));
            return false;
        }
        i = i + 1;
    }
    true
}

/// The name of a status in camel case, one capital per word.
pub open spec fn camel_name(status: ResponseStatus) -> Seq<char> {
    match status {
        ResponseStatus::Continue => "Continue"@,
        ResponseStatus::SwitchingProtocols => "SwitchingProtocols"@,
        ResponseStatus::OK => "Ok"@,
        ResponseStatus::Created => "Created"@,
        ResponseStatus::Accepted => "Accepted"@,
        ResponseStatus::NonAuthoritativeInformation => "NonAuthoritativeInformation"@,
        ResponseStatus::NoContent => "NoContent"@,
        ResponseStatus::ResetContent => "ResetContent"@,
        ResponseStatus::PartialContent => "PartialContent"@,
        ResponseStatus::MultipleChoices => "MultipleChoices"@,
        ResponseStatus::MovedPermanently => "MovedPermanently"@,
        ResponseStatus::Found => "Found"@,
        ResponseStatus::SeeOther => "SeeOther"@,
        ResponseStatus::NotModified => "NotModified"@,
        ResponseStatus::UseProxy => "UseProxy"@,
        ResponseStatus::TemporaryRedirect => "TemporaryRedirect"@,
        ResponseStatus::PermanentRedirect => "PermanentRedirect"@,
        ResponseStatus::BadRequest => "BadRequest"@,
        ResponseStatus::Unauthorized => "Unauthorized"@,
        ResponseStatus::PaymentRequired => "PaymentRequired"@,
        ResponseStatus::Forbidden => "Forbidden"@,
        ResponseStatus::NotFound => "NotFound"@,
        ResponseStatus::MethodNotAllowed => "MethodNotAllowed"@,
        ResponseStatus::NotAcceptable => "NotAcceptable"@,
        ResponseStatus::ProxyAuthenticationRequired => "ProxyAuthenticationRequired"@,
        ResponseStatus::RequestTimeout => "RequestTimeout"@,
        ResponseStatus::Conflict => "Conflict"@,
        ResponseStatus::Gone => "Gone"@,
        ResponseStatus::LengthRequired => "LengthRequired"@,
        ResponseStatus::PreconditionFailed => "PreconditionFailed"@,
        ResponseStatus::ContentTooLarge => "ContentTooLarge"@,
        ResponseStatus::UriTooLong => "UriTooLong"@,
        ResponseStatus::UnsupportedMediaType => "UnsupportedMediaType"@,
        ResponseStatus::RangeNotSatisfiable => "RangeNotSatisfiable"@,
        ResponseStatus::ExpectationFailed => "ExpectationFailed"@,
        ResponseStatus::MisdirectedRequest => "MisdirectedRequest"@,
        ResponseStatus::UnprocessableContent => "UnprocessableContent"@,
        ResponseStatus::UpgradeRequired => "UpgradeRequired"@,
        ResponseStatus::InternalServerError => "InternalServerError"@,
        ResponseStatus::NotImplemented => "NotImplemented"@,
        ResponseStatus::BadGateway => "BadGateway"@,
        ResponseStatus::ServiceUnavaliable => "ServiceUnavaliable"@,
        ResponseStatus::GatewayTimeout => "GatewayTimeout"@,
        ResponseStatus::HTTPVersionNotSupported => "HTTPVersionNotSupported"@,
    }
}

/// The name of a status in camel case, one capital per word.
pub fn status_name(status: &ResponseStatus) -> (r: &'static str)
    ensures
        r@ == camel_name(*status),
{
    match status {
        ResponseStatus::Continue => "Continue",
        ResponseStatus::SwitchingProtocols => "SwitchingProtocols",
        ResponseStatus::OK => "Ok",
        ResponseStatus::Created => "Created",
        ResponseStatus::Accepted => "Accepted",
        ResponseStatus::NonAuthoritativeInformation => "NonAuthoritativeInformation",
        ResponseStatus::NoContent => "NoContent",
        ResponseStatus::ResetContent => "ResetContent",
        ResponseStatus::PartialContent => "PartialContent",
        ResponseStatus::MultipleChoices => "MultipleChoices",
        ResponseStatus::MovedPermanently => "MovedPermanently",
        ResponseStatus::Found => "Found",
        ResponseStatus::SeeOther => "SeeOther",
        ResponseStatus::NotModified => "NotModified",
        ResponseStatus::UseProxy => "UseProxy",
        ResponseStatus::TemporaryRedirect => "TemporaryRedirect",
        ResponseStatus::PermanentRedirect => "PermanentRedirect",
        ResponseStatus::BadRequest => "BadRequest",
        ResponseStatus::Unauthorized => "Unauthorized",
        ResponseStatus::PaymentRequired => "PaymentRequired",
        ResponseStatus::Forbidden => "Forbidden",
        ResponseStatus::NotFound => "NotFound",
        ResponseStatus::MethodNotAllowed => "MethodNotAllowed",
        ResponseStatus::NotAcceptable => "NotAcceptable",
        ResponseStatus::ProxyAuthenticationRequired => "ProxyAuthenticationRequired",
        ResponseStatus::RequestTimeout => "RequestTimeout",
        ResponseStatus::Conflict => "Conflict",
        ResponseStatus::Gone => "Gone",
        ResponseStatus::LengthRequired => "LengthRequired",
        ResponseStatus::PreconditionFailed => "PreconditionFailed",
        ResponseStatus::ContentTooLarge => "ContentTooLarge",
        ResponseStatus::UriTooLong => "UriTooLong",
        ResponseStatus::UnsupportedMediaType => "UnsupportedMediaType",
        ResponseStatus::RangeNotSatisfiable => "RangeNotSatisfiable",
        ResponseStatus::ExpectationFailed => "ExpectationFailed",
        ResponseStatus::MisdirectedRequest => "MisdirectedRequest",
        ResponseStatus::UnprocessableContent => "UnprocessableContent",
        ResponseStatus::UpgradeRequired => "UpgradeRequired",
        ResponseStatus::InternalServerError => "InternalServerError",
        ResponseStatus::NotImplemented => "NotImplemented",
        ResponseStatus::BadGateway => "BadGateway",
        ResponseStatus::ServiceUnavaliable => "ServiceUnavaliable",
        ResponseStatus::GatewayTimeout => "GatewayTimeout",
        ResponseStatus::HTTPVersionNotSupported => "HTTPVersionNotSupported",
    }
}

/// Whether every character of a text is ASCII.
pub open spec fn ascii_text(cs: Seq<char>) -> bool {
    forall|i: int| 0 <= i < cs.len() ==> (#[trigger] cs[i] as u32) < 0x80
}

/// Every status name is ASCII text.
pub proof fn lemma_camel_name_ascii(status: ResponseStatus)
    ensures
        ascii_text(camel_name(status)),
{
    match status {
        ResponseStatus::Continue => reveal_strlit("Continue"),
        ResponseStatus::SwitchingProtocols => reveal_strlit("SwitchingProtocols"),
        ResponseStatus::OK => reveal_strlit("Ok"),
        ResponseStatus::Created => reveal_strlit("Created"),
        ResponseStatus::Accepted => reveal_strlit("Accepted"),
        ResponseStatus::NonAuthoritativeInformation => reveal_strlit("NonAuthoritativeInformation"),
        ResponseStatus::NoContent => reveal_strlit("NoContent"),
        ResponseStatus::ResetContent => reveal_strlit("ResetContent"),
        ResponseStatus::PartialContent => reveal_strlit("PartialContent"),
        ResponseStatus::MultipleChoices => reveal_strlit("MultipleChoices"),
        ResponseStatus::MovedPermanently => reveal_strlit("MovedPermanently"),
        ResponseStatus::Found => reveal_strlit("Found"),
        ResponseStatus::SeeOther => reveal_strlit("SeeOther"),
        ResponseStatus::NotModified => reveal_strlit("NotModified"),
        ResponseStatus::UseProxy => reveal_strlit("UseProxy"),
        ResponseStatus::TemporaryRedirect => reveal_strlit("TemporaryRedirect"),
        ResponseStatus::PermanentRedirect => reveal_strlit("PermanentRedirect"),
        ResponseStatus::BadRequest => reveal_strlit("BadRequest"),
        ResponseStatus::Unauthorized => reveal_strlit("Unauthorized"),
        ResponseStatus::PaymentRequired => reveal_strlit("PaymentRequired"),
        ResponseStatus::Forbidden => reveal_strlit("Forbidden"),
        ResponseStatus::NotFound => reveal_strlit("NotFound"),
        ResponseStatus::MethodNotAllowed => reveal_strlit("MethodNotAllowed"),
        ResponseStatus::NotAcceptable => reveal_strlit("NotAcceptable"),
        ResponseStatus::ProxyAuthenticationRequired => reveal_strlit("ProxyAuthenticationRequired"),
        ResponseStatus::RequestTimeout => reveal_strlit("RequestTimeout"),
        ResponseStatus::Conflict => reveal_strlit("Conflict"),
        ResponseStatus::Gone => reveal_strlit("Gone"),
        ResponseStatus::LengthRequired => reveal_strlit("LengthRequired"),
        ResponseStatus::PreconditionFailed => reveal_strlit("PreconditionFailed"),
        ResponseStatus::ContentTooLarge => reveal_strlit("ContentTooLarge"),
        ResponseStatus::UriTooLong => reveal_strlit("UriTooLong"),
        ResponseStatus::UnsupportedMediaType => reveal_strlit("UnsupportedMediaType"),
        ResponseStatus::RangeNotSatisfiable => reveal_strlit("RangeNotSatisfiable"),
        ResponseStatus::ExpectationFailed => reveal_strlit("ExpectationFailed"),
        ResponseStatus::MisdirectedRequest => reveal_strlit("MisdirectedRequest"),
        ResponseStatus::UnprocessableContent => reveal_strlit("UnprocessableContent"),
        ResponseStatus::UpgradeRequired => reveal_strlit("UpgradeRequired"),
        ResponseStatus::InternalServerError => reveal_strlit("InternalServerError"),
        ResponseStatus::NotImplemented => reveal_strlit("NotImplemented"),
        ResponseStatus::BadGateway => reveal_strlit("BadGateway"),
        ResponseStatus::ServiceUnavaliable => reveal_strlit("ServiceUnavaliable"),
        ResponseStatus::GatewayTimeout => reveal_strlit("GatewayTimeout"),
        ResponseStatus::HTTPVersionNotSupported => reveal_strlit("HTTPVersionNotSupported"),
    }
}

/// An ASCII camel-case name in capitals, a space before each capital but the
/// first.
pub open spec fn spaced_capitals(cs: Seq<char>) -> Seq<char>
    decreases cs.len(),
{
    if cs.len() == 0 {
        Seq::empty()
    } else {
        let prev = spaced_capitals(cs.drop_last());
        let c = cs.last();
        let sep = if 'A' <= c && c <= 'Z' && prev.len() > 0 { seq![' '] } else { Seq::empty() };
        prev + sep + seq![ascii_upper(c)]
    }
}

/// A camel-case name in capitals, a space before each capital but the first.
pub open spec fn spaced_upper(cs: Seq<char>) -> Seq<char>
    decreases cs.len(),
{
    if cs.len() == 0 {
        Seq::empty()
    } else {
        let prev = spaced_upper(cs.drop_last());
        let c = cs.last();
        let sep = if unicode_uppercase(c) && prev.len() > 0 { seq![' '] } else { Seq::empty() };
        prev + sep + unicode_char_uppercase(c)
    }
}

/// The reason phrase of a status: its name in capitals, words apart.
pub fn status_to_string(status: &ResponseStatus) -> (s: String)
    ensures
        s@ == spaced_upper(camel_name(*status)),
        s@ == spaced_capitals(camel_name(*status)),
{
    proof { lemma_camel_name_ascii(*status); }
    let variant = status_name(status);
    let cs = chars_of(variant);
    let mut status_string = String::new();
    let mut i: usize = 0;
    while i < cs.len()
        invariant
            0 <= i <= cs@.len(),
            cs@ == camel_name(*status),
            ascii_text(cs@),
            status_string@ == spaced_upper(cs@.take(i as int)),
            status_string@ == spaced_capitals(cs@.take(i as int)),
        decreases cs@.len() - i,
    {
        let chr = cs[i];
        assert(cs@.take(i + 1).drop_last() =~= cs@.take(i as int));
        if char_is_uppercase(chr) && status_string.unicode_len() > 0 {
            string_push(&mut status_string, ' ');
        }
        let upper = char_to_uppercase(chr);
        status_string = concat_str(status_string, upper.as_str());
        i = i + 1;
        assert(status_string@ =~= spaced_upper(cs@.take(i as int)));
        assert(status_string@ =~= spaced_capitals(cs@.take(i as int)));
    }
    assert(cs@.take(cs@.len() as int) =~= cs@);
    status_string
}

/// The header fields as lines `name: value`, several values joined by `", "`.
pub open spec fn headers_text(es: HeaderEntries) -> Seq<char>
    decreases es.len(),
{
    if es.len() == 0 {
        Seq::empty()
    } else {
        headers_text(es.drop_last()) + es.last().0 + ": "@ + value_text(es.last().1, ", "@) + "\r\n"@
    }
}

/// The header fields as text, one `name: value` line each.
pub fn headers_to_string(headers: &HeadersMap) -> (s: String)
    ensures
        s@ == headers_text(headers@),
{
    let mut header_string = String::new();
    let n = headers.len();
    let mut i: usize = 0;
    while i < n
        invariant
            0 <= i <= n,
            n == headers@.len(),
            header_string@ == headers_text(headers@.take(i as int)),
        decreases n - i,
    {
        assert(headers@.take(i + 1).drop_last() =~= headers@.take(i as int));
        let (key, val) = headers.entry(i);
        let val_string = match val {
            HeaderVal::Single(v) => owned(v.as_str()),
            HeaderVal::Multiple(vals) => join_strings(vals, ", "),
        };
        header_string = concat_str(header_string, key.as_str());
        header_string = concat_str(header_string, ": ");
        header_string = concat_str(header_string, val_string.as_str());
        header_string = concat_str(header_string, "\r\n");
        i = i + 1;
        assert(header_string@ =~= headers_text(headers@.take(i as int)));
    }
    assert(headers@.take(n as int) =~= headers@);
    header_string
}


/// The status line of a response: protocol, code and reason phrase.
pub open spec fn status_line(status: ResponseStatus) -> Seq<char> {
    "HTTP/1.1 "@ + decimal(status.spec_code() as nat) + " "@ + spaced_upper(camel_name(status))
}

/// The bytes of a response: the status line and the header lines in UTF-8,
/// an empty line, then the body.
pub open spec fn response_bytes(r: ResponseModel) -> Seq<u8> {
    encode_utf8(status_line(r.status) + "\r\n"@ + headers_text(r.headers) + "\r\n"@) + match r.body {
        Some(b) => b,
        None => Seq::empty(),
    }
}

/// Writes a response as HTTP/1.1 bytes.
pub fn serialize_res(res: &HTTPResponse) -> (b: Bytes)
    ensures
        bytes_view(b) == response_bytes(res@),
{
    let code = res.status.code();
    let mut text = owned("HTTP/1.1 ");
    text = concat_str(text, usize_to_string(code as usize).as_str());
    text = concat_str(text, " ");
    text = concat_str(text, status_to_string(&res.status).as_str());
    text = concat_str(text, "\r\n");
    text = concat_str(text, headers_to_string(&res.headers).as_str());
    text = concat_str(text, "\r\n");
    let mut buf = bytes_mut_new();
    let head = text.as_str().as_bytes();
    let _h = head.len();
    extend_from_slice(&mut buf, head);
    match &res.body {
        Some(body) => {
            let _n = bytes_mut_len(&buf);
            let _m = bytes_len(body);
            extend_from_slice(&mut buf, bytes_as_slice(body));
        },
        None => {},
    }
    freeze(buf)
}


/// The lines of the request being read from a connection.
pub struct RequestLines {
    pub lines: Vec<String>,
}

impl RequestLines {
    /// No line read yet.
    pub fn new() -> (r: Self)
        ensures
            r.lines@.len() == 0,
    {
        RequestLines { lines: Vec::new() }
    }

    /// Takes the next line: an empty line ends the request and hands out its
    /// lines, starting the next request; any other line is kept.
    pub fn push_line(&mut self, line: String) -> (r: Option<Vec<String>>)
        ensures
            line@.len() == 0 ==> (r matches Some(v) && v@ == old(self).lines@) && final(self).lines@.len() == 0,
            line@.len() > 0 ==> r is None && final(self).lines@ == old(self).lines@.push(line),
    {
        if line.unicode_len() == 0 {
            let mut done: Vec<String> = Vec::new();
            std::mem::swap(&mut done, &mut self.lines);
            Some(done)
        } else {
            self.lines.push(line);
            None
        }
    }
}

} // verus!
