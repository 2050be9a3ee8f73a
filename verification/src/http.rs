//! HTTP messages as both server versions share them: header values, the
//! header map, requests, responses and status codes.

use vstd::prelude::*;
use bytes::Bytes;
use crate::buf::{bytes_from_string, bytes_from_vec, bytes_len, bytes_mut_new, bytes_mut_view, bytes_view, extend_from_slice, freeze};
use crate::text::{concat_str, decimal, lemma_decimal_reads_back, owned, usize_text_value, usize_to_string};

verus! {

/// The value of a header field: one value, or several in the order received.
#[derive(Debug, PartialEq)]
pub enum HeaderVal {
    Single(String),
    Multiple(Vec<String>),
}

/// A header value as text.
pub enum HeaderValView {
    Single(Seq<char>),
    Multiple(Seq<Seq<char>>),
}

/// The texts of a vector of strings.
pub open spec fn texts(v: Seq<String>) -> Seq<Seq<char>> {
    v.map_values(|s: String| s@)
}

impl View for HeaderVal {
    type V = HeaderValView;

    open spec fn view(&self) -> HeaderValView {
        match self {
            HeaderVal::Single(s) => HeaderValView::Single(s@),
            HeaderVal::Multiple(vs) => HeaderValView::Multiple(texts(vs@)),
        }
    }
}

/// The texts joined by a separator.
pub open spec fn join(vs: Seq<Seq<char>>, sep: Seq<char>) -> Seq<char>
    decreases vs.len(),
{
    if vs.len() == 0 {
        Seq::empty()
    } else if vs.len() == 1 {
        vs[0]
    } else {
        join(vs.drop_last(), sep) + sep + vs.last()
    }
}

/// The text of a header value: a single value, or several joined by `sep`.
pub open spec fn value_text(v: HeaderValView, sep: Seq<char>) -> Seq<char> {
    match v {
        HeaderValView::Single(s) => s,
        HeaderValView::Multiple(vs) => join(vs, sep),
    }
}

/// Joins strings with a separator.
pub fn join_strings(vals: &Vec<String>, sep: &str) -> (r: String)
    ensures
        r@ == join(texts(vals@), sep@),
{
    let mut r = String::new();
    let mut i: usize = 0;
    while i < vals.len()
        invariant
            0 <= i <= vals@.len(),
            r@ == join(texts(vals@).take(i as int), sep@),
        decreases vals@.len() - i,
    {
        let ghost prev = texts(vals@).take(i as int);
        assert(texts(vals@).take(i + 1).drop_last() =~= prev);
        if i == 0 {
            r = owned(vals[i].as_str());
        } else {
            r = concat_str(r, sep);
            r = concat_str(r, vals[i].as_str());
        }
        assert(texts(vals@)[i as int] == vals@[i as int]@);
        i = i + 1;
        assert(r@ == join(texts(vals@).take(i as int), sep@));
    }
    assert(texts(vals@).take(vals@.len() as int) =~= texts(vals@));
    r
}

impl HeaderVal {
    /// The value's bytes: the UTF-8 text, several values joined by `","`.
    pub fn as_bytes(&self) -> (b: Bytes)
        ensures
            bytes_view(b) == vstd::utf8::encode_utf8(value_text(self@, ","@)),
    {
        let mut bytes = bytes_mut_new();
        match self {
            HeaderVal::Single(val) => {
                let s = val.as_str().as_bytes();
                let _n = s.len();
                extend_from_slice(&mut bytes, s);
            },
            HeaderVal::Multiple(vals) => {
                let joined = join_strings(vals, ",");
                let s = joined.as_str().as_bytes();
                let _n = s.len();
                extend_from_slice(&mut bytes, s);
            },
        }
        freeze(bytes)
    }
}


/// Header fields in the order they were first set; no name occurs twice.
pub type HeaderEntries = Seq<(Seq<char>, HeaderValView)>;

/// Whether no field name occurs twice.
pub open spec fn distinct_names(es: HeaderEntries) -> bool {
    forall|i: int, j: int| 0 <= i < es.len() && 0 <= j < es.len() && i != j ==> es[i].0 != es[j].0
}

/// Whether the field name occurs.
pub open spec fn has_name(es: HeaderEntries, k: Seq<char>) -> bool {
    exists|i: int| 0 <= i < es.len() && es[i].0 == k
}

/// The position of a field name.
pub open spec fn name_index(es: HeaderEntries, k: Seq<char>) -> int {
    choose|i: int| 0 <= i < es.len() && es[i].0 == k
}

/// The value of a field, if it occurs.
pub open spec fn header_lookup(es: HeaderEntries, k: Seq<char>) -> Option<HeaderValView> {
    if has_name(es, k) { Some(es[name_index(es, k)].1) } else { None }
}

/// Setting a field: its value is replaced in place, or the field is added last.
pub open spec fn header_insert(es: HeaderEntries, k: Seq<char>, v: HeaderValView) -> HeaderEntries {
    if has_name(es, k) { es.update(name_index(es, k), (k, v)) } else { es.push((k, v)) }
}

/// With distinct names, the value found for a name is the value at any
/// position holding that name.
pub proof fn lemma_lookup_at(es: HeaderEntries, k: Seq<char>, j: int)
    requires
        distinct_names(es),
        0 <= j < es.len(),
        es[j].0 == k,
    ensures
        header_lookup(es, k) == Some(es[j].1),
{
    assert(has_name(es, k));
    let i = name_index(es, k);
    assert(es[i].0 == k);
    if i != j {
        assert(es[i].0 != es[j].0);
    }
}

/// Reading a header field after setting it gives the value set; the other
/// fields read as before, and the names stay distinct.
pub proof fn lemma_header_insert_lookup(es: HeaderEntries, k: Seq<char>, v: HeaderValView, other: Seq<char>)
    requires
        distinct_names(es),
    ensures
        distinct_names(header_insert(es, k, v)),
        header_lookup(header_insert(es, k, v), k) == Some(v),
        other != k ==> header_lookup(header_insert(es, k, v), other) == header_lookup(es, other),
{
    let es2 = header_insert(es, k, v);
    if has_name(es, k) {
        let i = name_index(es, k);
        assert(es[i].0 == k);
        assert(es2 == es.update(i, (k, v)));
        assert(distinct_names(es2)) by {
            assert forall|a: int, b: int| 0 <= a < es2.len() && 0 <= b < es2.len() && a != b implies es2[a].0 != es2[b].0 by {
                if a != i && b != i {
                    assert(es2[a] == es[a] && es2[b] == es[b]);
                } else if a == i {
                    assert(es2[b] == es[b]);
                    assert(es[b].0 != es[i].0);
                } else {
                    assert(es2[a] == es[a]);
                    assert(es[a].0 != es[i].0);
                }
            }
        }
        lemma_lookup_at(es2, k, i);
        if other != k {
            if has_name(es, other) {
                let j = name_index(es, other);
                assert(es[j].0 == other);
                assert(j != i);
                assert(es2[j] == es[j]);
                lemma_lookup_at(es2, other, j);
            } else {
                assert(!has_name(es2, other)) by {
                    if has_name(es2, other) {
                        let j = choose|j: int| 0 <= j < es2.len() && es2[j].0 == other;
                        assert(j != i);
                        assert(es2[j] == es[j]);
                    }
                }
            }
        }
    } else {
        assert(es2 == es.push((k, v)));
        assert(distinct_names(es2)) by {
            assert forall|a: int, b: int| 0 <= a < es2.len() && 0 <= b < es2.len() && a != b implies es2[a].0 != es2[b].0 by {
                if a < es.len() && b < es.len() {
                    assert(es2[a] == es[a] && es2[b] == es[b]);
                } else if a == es.len() {
                    assert(es2[b] == es[b]);
                    assert(es[b].0 != k);
                } else {
                    assert(es2[a] == es[a]);
                    assert(es[a].0 != k);
                }
            }
        }
        lemma_lookup_at(es2, k, es.len() as int);
        if other != k {
            if has_name(es, other) {
                let j = name_index(es, other);
                assert(es[j].0 == other);
                assert(es2[j] == es[j]);
                lemma_lookup_at(es2, other, j);
            } else {
                assert(!has_name(es2, other)) by {
                    if has_name(es2, other) {
                        let j = choose|j: int| 0 <= j < es2.len() && es2[j].0 == other;
                        assert(j < es.len());
                        assert(es2[j] == es[j]);
                    }
                }
            }
        }
    }
}

/// A map from header field names to values, in the order the fields were
/// first set; two maps are equal when they hold the same fields, in whatever
/// order.
#[derive(Debug)]
pub struct HeadersMap {
    entries: Vec<(String, HeaderVal)>,
}

impl View for HeadersMap {
    type V = HeaderEntries;

    closed spec fn view(&self) -> HeaderEntries {
        self.entries@.map_values(|e: (String, HeaderVal)| (e.0@, e.1@))
    }
}

impl HeadersMap {
    #[verifier::type_invariant]
    closed spec fn inv(self) -> bool {
        distinct_names(self@)
    }

    /// An empty map.
    pub fn new() -> (m: Self)
        ensures
            m@ == Seq::<(Seq<char>, HeaderValView)>::empty(),
    {
        let m = HeadersMap { entries: Vec::new() };
        assert(m@ =~= Seq::<(Seq<char>, HeaderValView)>::empty());
        m
    }

    /// The number of fields.
    pub fn len(&self) -> (n: usize)
        ensures
            n == self@.len(),
    {
        self.entries.len()
    }

    /// The names in the map are distinct.
    pub fn names_distinct(&self)
        ensures
            distinct_names(self@),
    {
        proof { use_type_invariant(self); }
    }

    /// The `i`-th field, in order of first setting.
    pub fn entry(&self, i: usize) -> (r: (&String, &HeaderVal))
        requires
            i < self@.len(),
        ensures
            (r.0@, r.1@) == self@[i as int],
    {
        let e = &self.entries[i];
        (&e.0, &e.1)
    }

    /// The position of a field name.
    pub fn find(&self, key: &str) -> (r: Option<usize>)
        ensures
            r matches Some(i) ==> i < self@.len() && self@[i as int].0 == key@,
            r is None ==> !has_name(self@, key@),
    {
        let k = owned(key);
        let mut i: usize = 0;
        while i < self.entries.len()
            invariant
                0 <= i <= self@.len(),
                self@.len() == self.entries@.len(),
                k@ == key@,
                forall|j: int| 0 <= j < i ==> self@[j].0 != key@,
            decreases self@.len() - i,
        {
            if self.entries[i].0 == k {
                return Some(i);
            }
            i = i + 1;
        }
        None
    }

    /// The value of a field, if it occurs.
    pub fn get(&self, key: &str) -> (r: Option<&HeaderVal>)
        ensures
            match r {
                Some(v) => header_lookup(self@, key@) == Some(v@),
                None => header_lookup(self@, key@) is None,
            },
    {
        proof { use_type_invariant(self); }
        match self.find(key) {
            Some(i) => {
                assert(has_name(self@, key@));
                assert(name_index(self@, key@) == i);
                Some(&self.entries[i].1)
            },
            None => None,
        }
    }

    /// Sets a field: replaces its value in place, or adds it last.
    pub fn insert(&mut self, key: String, val: HeaderVal)
        ensures
            final(self)@ == header_insert(old(self)@, key@, val@),
    {
        proof { use_type_invariant(&*self); }
        let pos = self.find(key.as_str());
        let ghost es = self@;
        let mut entries: Vec<(String, HeaderVal)> = Vec::new();
        std::mem::swap(&mut entries, &mut self.entries);
        match pos {
            Some(i) => {
                assert(name_index(es, key@) == i as int);
                entries[i] = (key, val);
            },
            None => {
                entries.push((key, val));
            },
        }
        assert(entries@.map_values(|e: (String, HeaderVal)| (e.0@, e.1@)) =~= header_insert(es, key@, val@));
        self.entries = entries;
    }
}

impl Clone for HeaderVal {
    fn clone(&self) -> (r: Self)
        ensures
            r@ == self@,
    {
        match self {
            HeaderVal::Single(s) => HeaderVal::Single(s.clone()),
            HeaderVal::Multiple(vs) => {
                let mut out: Vec<String> = Vec::new();
                let mut i: usize = 0;
                while i < vs.len()
                    invariant
                        0 <= i <= vs@.len(),
                        texts(out@) == texts(vs@).take(i as int),
                    decreases vs@.len() - i,
                {
                    let c = vs[i].clone();
                    assert(c@ == vs@[i as int]@);
                    let ghost prev = out@;
                    out.push(c);
                    assert(texts(out@) =~= texts(prev).push(c@));
                    i = i + 1;
                    assert(texts(out@) =~= texts(vs@).take(i as int));
                }
                assert(texts(vs@).take(vs@.len() as int) =~= texts(vs@));
                HeaderVal::Multiple(out)
            },
        }
    }
}

/// Whether two lists of header fields hold the same fields, in whatever
/// order (each name of the first has the same value in the second, and both
/// have as many fields).
pub open spec fn same_fields(a: HeaderEntries, b: HeaderEntries) -> bool {
    &&& a.len() == b.len()
    &&& forall|i: int| 0 <= i < a.len() ==> header_lookup(b, (#[trigger] a[i]).0) == Some(a[i].1)
}

/// Whether two strings hold the same text.
fn same_string(a: &String, b: &String) -> (r: bool)
    ensures
        r == (a@ == b@),
{
    *a == *b
}

/// Whether two header values are the same.
fn same_value(a: &HeaderVal, b: &HeaderVal) -> (r: bool)
    ensures
        r == (a@ == b@),
{
    match (a, b) {
        (HeaderVal::Single(x), HeaderVal::Single(y)) => same_string(x, y),
        (HeaderVal::Multiple(xs), HeaderVal::Multiple(ys)) => {
            if xs.len() != ys.len() {
                assert(texts(xs@).len() != texts(ys@).len());
                return false;
            }
            let mut i: usize = 0;
            while i < xs.len()
                invariant
                    a@ == HeaderValView::Multiple(texts(xs@)),
                    b@ == HeaderValView::Multiple(texts(ys@)),
                    0 <= i <= xs@.len(),
                    xs@.len() == ys@.len(),
                    forall|j: int| 0 <= j < i ==> xs@[j]@ == ys@[j]@,
                decreases xs@.len() - i,
            {
                if !same_string(&xs[i], &ys[i]) {
                    assert(texts(xs@)[i as int] != texts(ys@)[i as int]);
                    return false;
                }
                i = i + 1;
            }
            assert(texts(xs@) =~= texts(ys@));
            true
        },
        _ => false,
    }
}

impl HeadersMap {
    /// Whether two maps hold the same fields, in whatever order.
    pub fn same_fields_as(&self, other: &HeadersMap) -> (r: bool)
        ensures
            r == same_fields(self@, other@),
    {
        let n = self.len();
        if n != other.len() {
            return false;
        }
        let mut i: usize = 0;
        while i < n
            invariant
                n == self@.len(),
                n == other@.len(),
                0 <= i <= n,
                forall|j: int| 0 <= j < i ==> header_lookup(other@, (#[trigger] self@[j]).0) == Some(self@[j].1),
            decreases n - i,
        {
            let (k, v) = self.entry(i);
            match other.get(k.as_str()) {
                Some(w) => {
                    if !same_value(v, w) {
                        return false;
                    }
                },
                None => {
                    return false;
                },
            }
            i = i + 1;
        }
        true
    }
}

impl PartialEq for HeadersMap {
    fn eq(&self, other: &Self) -> (r: bool) {
        self.same_fields_as(other)
    }
}

impl vstd::std_specs::cmp::PartialEqSpecImpl for HeadersMap {
    open spec fn obeys_eq_spec() -> bool {
        true
    }

    open spec fn eq_spec(&self, other: &Self) -> bool {
        same_fields(self@, other@)
    }
}

impl Clone for HeadersMap {
    fn clone(&self) -> (r: Self)
        ensures
            r@ == self@,
    {
        proof { use_type_invariant(self); }
        let mut entries: Vec<(String, HeaderVal)> = Vec::new();
        let mut i: usize = 0;
        while i < self.entries.len()
            invariant
                0 <= i <= self@.len(),
                self@.len() == self.entries@.len(),
                distinct_names(self@),
                entries@.map_values(|e: (String, HeaderVal)| (e.0@, e.1@)) == self@.take(i as int),
            decreases self@.len() - i,
        {
            let e = &self.entries[i];
            let k = e.0.clone();
            let v = e.1.clone();
            assert(k@ == self@[i as int].0 && v@ == self@[i as int].1);
            let ghost prev = entries@;
            entries.push((k, v));
            assert(entries@.map_values(|e: (String, HeaderVal)| (e.0@, e.1@))
                =~= prev.map_values(|e: (String, HeaderVal)| (e.0@, e.1@)).push((k@, v@)));
            i = i + 1;
            assert(entries@.map_values(|e: (String, HeaderVal)| (e.0@, e.1@)) =~= self@.take(i as int));
        }
        assert(self@.take(self@.len() as int) =~= self@);
        HeadersMap { entries }
    }
}

/// The number of values of a header value.
pub open spec fn value_count(v: HeaderValView) -> nat {
    match v {
        HeaderValView::Single(_) => 1,
        HeaderValView::Multiple(vs) => vs.len(),
    }
}

/// The size that `hdr_map_size` counts: per field a 32-octet overhead, and the
/// in-memory size of a `String` for the name and for each value.
pub open spec fn hdr_size(es: HeaderEntries) -> int
    decreases es.len(),
{
    if es.len() == 0 {
        0
    } else {
        let s = vstd::layout::size_of::<String>() as int;
        hdr_size(es.drop_last()) + 32 + s + s * value_count(es.last().1)
    }
}

proof fn lemma_hdr_size_monotone(es: HeaderEntries, i: int)
    requires
        0 <= i <= es.len(),
    ensures
        hdr_size(es.take(i)) <= hdr_size(es),
    decreases es.len() - i,
{
    if i < es.len() {
        lemma_hdr_size_monotone(es, i + 1);
        assert(es.take(i + 1).drop_last() =~= es.take(i));
        let s = vstd::layout::size_of::<String>() as int;
        assert(s * value_count(es[i].1) >= 0) by (nonlinear_arith) requires s >= 0;
    } else {
        assert(es.take(i) =~= es);
    }
}

/// Calculates the size of an uncompressed header list as this server counts it
/// against SETTINGS_MAX_HEADER_LIST_SIZE: per field 32 octets, plus the size of
/// a `String` value for the name and for each value.
pub fn hdr_map_size(hdr_map: &HeadersMap) -> (size: usize)
    requires
        hdr_size(hdr_map@) <= usize::MAX,
    ensures
        size == hdr_size(hdr_map@),
{
    let string_size = core::mem::size_of::<String>();
    let mut size: usize = 0;
    let mut i: usize = 0;
    let n = hdr_map.len();
    while i < n
        invariant
            n == hdr_map@.len(),
            0 <= i <= n,
            size == hdr_size(hdr_map@.take(i as int)),
            hdr_size(hdr_map@) <= usize::MAX,
            string_size == vstd::layout::size_of::<String>(),
        decreases n - i,
    {
        proof { lemma_hdr_size_monotone(hdr_map@, i + 1); }
        assert(hdr_map@.take(i + 1).drop_last() =~= hdr_map@.take(i as int));
        let (_key, value) = hdr_map.entry(i);
        // 32 octet overhead for each entry, and the size of the name.
        size = size + 32;
        size = size + string_size;
        match value {
            HeaderVal::Single(_) => {
                size = size + string_size;
                assert(string_size * value_count(hdr_map@[i as int].1) == string_size);
            },
            HeaderVal::Multiple(vals) => {
                let mut j: usize = 0;
                let ghost base = size;
                while j < vals.len()
                    invariant
                        0 <= j <= vals@.len(),
                        size == base + string_size * j,
                        base + string_size * vals@.len() <= usize::MAX,
                    decreases vals@.len() - j,
                {
                    assert(string_size * (j + 1) == string_size * j + string_size) by (nonlinear_arith);
                    assert(string_size * (j + 1) <= string_size * vals@.len()) by (nonlinear_arith)
                        requires j + 1 <= vals@.len();
                    size = size + string_size;
                    j = j + 1;
                }
                assert(value_count(hdr_map@[i as int].1) == vals@.len());
            },
        }
        i = i + 1;
    }
    assert(hdr_map@.take(n as int) =~= hdr_map@);
    size
}

/// Whether `hdr_map_size` is defined on the map (its sum fits a `usize`).
pub fn hdr_map_size_fits(hdr_map: &HeadersMap) -> (r: bool)
    ensures
        r == (hdr_size(hdr_map@) <= usize::MAX),
{
    let string_size = core::mem::size_of::<String>() as u128;
    let mut size: u128 = 0;
    let mut i: usize = 0;
    let n = hdr_map.len();
    while i < n
        invariant
            n == hdr_map@.len(),
            0 <= i <= n,
            size == hdr_size(hdr_map@.take(i as int)),
            size <= usize::MAX,
            string_size == vstd::layout::size_of::<String>(),
            string_size <= usize::MAX,
        decreases n - i,
    {
        assert(hdr_map@.take(i + 1).drop_last() =~= hdr_map@.take(i as int));
        let (_key, value) = hdr_map.entry(i);
        let count: u128 = match value {
            HeaderVal::Single(_) => 1,
            HeaderVal::Multiple(vals) => vals.len() as u128,
        };
        assert(count == value_count(hdr_map@[i as int].1));
        assert(string_size * count <= 0xffff_ffff_ffff_ffff * 0xffff_ffff_ffff_ffffu128) by (nonlinear_arith)
            requires string_size <= 0xffff_ffff_ffff_ffffu128, count <= 0xffff_ffff_ffff_ffffu128;
        let prod = string_size * count;
        i = i + 1;
        if prod > usize::MAX as u128 {
            proof { lemma_hdr_size_monotone(hdr_map@, i as int); }
            return false;
        }
        let next = size + 32 + string_size + prod;
        if next > usize::MAX as u128 {
            proof { lemma_hdr_size_monotone(hdr_map@, i as int); }
            return false;
        }
        size = next;
    }
    assert(hdr_map@.take(n as int) =~= hdr_map@);
    true
}

/// The HTTP status codes that a response can carry.
#[derive(Debug, Clone, Copy, PartialEq, Eq, Structural)]
pub enum ResponseStatus {
    Continue,
    SwitchingProtocols,
    OK,
    Created,
    Accepted,
    NonAuthoritativeInformation,
    NoContent,
    ResetContent,
    PartialContent,
    MultipleChoices,
    MovedPermanently,
    Found,
    SeeOther,
    NotModified,
    UseProxy,
    TemporaryRedirect,
    PermanentRedirect,
    BadRequest,
    Unauthorized,
    PaymentRequired,
    Forbidden,
    NotFound,
    MethodNotAllowed,
    NotAcceptable,
    ProxyAuthenticationRequired,
    RequestTimeout,
    Conflict,
    Gone,
    LengthRequired,
    PreconditionFailed,
    ContentTooLarge,
    UriTooLong,
    UnsupportedMediaType,
    RangeNotSatisfiable,
    ExpectationFailed,
    MisdirectedRequest,
    UnprocessableContent,
    UpgradeRequired,
    InternalServerError,
    NotImplemented,
    BadGateway,
    ServiceUnavaliable,
    GatewayTimeout,
    HTTPVersionNotSupported,
}

impl ResponseStatus {
    /// The numeric status code.
    pub open spec fn spec_code(self) -> u32 {
        match self {
            ResponseStatus::Continue => 100,
            ResponseStatus::SwitchingProtocols => 101,
            ResponseStatus::OK => 200,
            ResponseStatus::Created => 201,
            ResponseStatus::Accepted => 202,
            ResponseStatus::NonAuthoritativeInformation => 203,
            ResponseStatus::NoContent => 204,
            ResponseStatus::ResetContent => 205,
            ResponseStatus::PartialContent => 206,
            ResponseStatus::MultipleChoices => 300,
            ResponseStatus::MovedPermanently => 301,
            ResponseStatus::Found => 302,
            ResponseStatus::SeeOther => 303,
            ResponseStatus::NotModified => 304,
            ResponseStatus::UseProxy => 305,
            ResponseStatus::TemporaryRedirect => 307,
            ResponseStatus::PermanentRedirect => 308,
            ResponseStatus::BadRequest => 400,
            ResponseStatus::Unauthorized => 401,
            ResponseStatus::PaymentRequired => 402,
            ResponseStatus::Forbidden => 403,
            ResponseStatus::NotFound => 404,
            ResponseStatus::MethodNotAllowed => 405,
            ResponseStatus::NotAcceptable => 406,
            ResponseStatus::ProxyAuthenticationRequired => 407,
            ResponseStatus::RequestTimeout => 408,
            ResponseStatus::Conflict => 409,
            ResponseStatus::Gone => 410,
            ResponseStatus::LengthRequired => 411,
            ResponseStatus::PreconditionFailed => 412,
            ResponseStatus::ContentTooLarge => 413,
            ResponseStatus::UriTooLong => 414,
            ResponseStatus::UnsupportedMediaType => 415,
            ResponseStatus::RangeNotSatisfiable => 416,
            ResponseStatus::ExpectationFailed => 417,
            ResponseStatus::MisdirectedRequest => 421,
            ResponseStatus::UnprocessableContent => 422,
            ResponseStatus::UpgradeRequired => 426,
            ResponseStatus::InternalServerError => 500,
            ResponseStatus::NotImplemented => 501,
            ResponseStatus::BadGateway => 502,
            ResponseStatus::ServiceUnavaliable => 503,
            ResponseStatus::GatewayTimeout => 504,
            ResponseStatus::HTTPVersionNotSupported => 505,
        }
    }

    /// The numeric status code.
    #[verifier::when_used_as_spec(spec_code)]
    pub fn code(self) -> (c: u32)
        ensures
            c == self.spec_code(),
    {
        match self {
            ResponseStatus::Continue => 100,
            ResponseStatus::SwitchingProtocols => 101,
            ResponseStatus::OK => 200,
            ResponseStatus::Created => 201,
            ResponseStatus::Accepted => 202,
            ResponseStatus::NonAuthoritativeInformation => 203,
            ResponseStatus::NoContent => 204,
            ResponseStatus::ResetContent => 205,
            ResponseStatus::PartialContent => 206,
            ResponseStatus::MultipleChoices => 300,
            ResponseStatus::MovedPermanently => 301,
            ResponseStatus::Found => 302,
            ResponseStatus::SeeOther => 303,
            ResponseStatus::NotModified => 304,
            ResponseStatus::UseProxy => 305,
            ResponseStatus::TemporaryRedirect => 307,
            ResponseStatus::PermanentRedirect => 308,
            ResponseStatus::BadRequest => 400,
            ResponseStatus::Unauthorized => 401,
            ResponseStatus::PaymentRequired => 402,
            ResponseStatus::Forbidden => 403,
            ResponseStatus::NotFound => 404,
            ResponseStatus::MethodNotAllowed => 405,
            ResponseStatus::NotAcceptable => 406,
            ResponseStatus::ProxyAuthenticationRequired => 407,
            ResponseStatus::RequestTimeout => 408,
            ResponseStatus::Conflict => 409,
            ResponseStatus::Gone => 410,
            ResponseStatus::LengthRequired => 411,
            ResponseStatus::PreconditionFailed => 412,
            ResponseStatus::ContentTooLarge => 413,
            ResponseStatus::UriTooLong => 414,
            ResponseStatus::UnsupportedMediaType => 415,
            ResponseStatus::RangeNotSatisfiable => 416,
            ResponseStatus::ExpectationFailed => 417,
            ResponseStatus::MisdirectedRequest => 421,
            ResponseStatus::UnprocessableContent => 422,
            ResponseStatus::UpgradeRequired => 426,
            ResponseStatus::InternalServerError => 500,
            ResponseStatus::NotImplemented => 501,
            ResponseStatus::BadGateway => 502,
            ResponseStatus::ServiceUnavaliable => 503,
            ResponseStatus::GatewayTimeout => 504,
            ResponseStatus::HTTPVersionNotSupported => 505,
        }
    }
}

/// A request, as either server version receives it.
#[derive(Debug)]
pub struct HTTPRequest {
    pub method: String,
    pub path: String,
    pub protocol: String,
    pub headers: HeadersMap,
    pub body: Option<Bytes>,
    pub trailers: Option<HeadersMap>,
}

/// A request as a mathematical value.
pub struct RequestModel {
    pub method: Seq<char>,
    pub path: Seq<char>,
    pub protocol: Seq<char>,
    pub headers: HeaderEntries,
    pub body: Option<Seq<u8>>,
    pub trailers: Option<HeaderEntries>,
}

/// The contents of an optional buffer.
pub open spec fn opt_bytes(b: Option<Bytes>) -> Option<Seq<u8>> {
    match b {
        Some(b) => Some(bytes_view(b)),
        None => None,
    }
}

/// The fields of an optional header map.
pub open spec fn opt_headers(m: Option<HeadersMap>) -> Option<HeaderEntries> {
    match m {
        Some(m) => Some(m@),
        None => None,
    }
}

impl View for HTTPRequest {
    type V = RequestModel;

    open spec fn view(&self) -> RequestModel {
        RequestModel {
            method: self.method@,
            path: self.path@,
            protocol: self.protocol@,
            headers: self.headers@,
            body: opt_bytes(self.body),
            trailers: opt_headers(self.trailers),
        }
    }
}

impl HTTPRequest {
    /// A request with the given request line, no header fields, no body.
    pub fn new(method: &str, path: &str, protocol: &str) -> (r: Self)
        ensures
            r@ == (RequestModel {
                method: method@,
                path: path@,
                protocol: protocol@,
                headers: Seq::empty(),
                body: None,
                trailers: None,
            }),
    {
        HTTPRequest {
            method: owned(method),
            path: owned(path),
            protocol: owned(protocol),
            headers: HeadersMap::new(),
            body: None,
            trailers: None,
        }
    }
}

/// A response under construction by a request handler.
#[derive(Debug)]
pub struct HTTPResponse {
    pub status: ResponseStatus,
    pub headers: HeadersMap,
    pub body: Option<Bytes>,
    pub trailers: Option<HeadersMap>,
}

/// A response as a mathematical value.
pub struct ResponseModel {
    pub status: ResponseStatus,
    pub headers: HeaderEntries,
    pub body: Option<Seq<u8>>,
    pub trailers: Option<HeaderEntries>,
}

impl View for HTTPResponse {
    type V = ResponseModel;

    open spec fn view(&self) -> ResponseModel {
        ResponseModel {
            status: self.status,
            headers: self.headers@,
            body: opt_bytes(self.body),
            trailers: opt_headers(self.trailers),
        }
    }
}

impl HTTPResponse {
    /// The response a handler starts from: 200 OK, `Content-Length: 0`, no body.
    pub fn default() -> (r: Self)
        ensures
            r@ == (ResponseModel {
                status: ResponseStatus::OK,
                headers: seq![("Content-Length"@, HeaderValView::Single("0"@))],
                body: None,
                trailers: None,
            }),
    {
        let mut resp = HTTPResponse { status: ResponseStatus::OK, headers: HeadersMap::new(), body: None, trailers: None };
        resp.set("Content-Length", "0");
        assert(!has_name(Seq::<(Seq<char>, HeaderValView)>::empty(), "Content-Length"@));
        assert(resp.headers@ =~= seq![("Content-Length"@, HeaderValView::Single("0"@))]);
        resp
    }

    /// Sets a header field to a single value.
    pub fn set(&mut self, field: &str, value: &str)
        ensures
            final(self)@ == (ResponseModel {
                headers: header_insert(old(self)@.headers, field@, HeaderValView::Single(value@)),
                ..old(self)@
            }),
    {
        self.headers.insert(owned(field), HeaderVal::Single(owned(value)));
    }

    /// Sets several header fields, in the order given, each to a single value.
    pub fn set_multiple(&mut self, values: &Vec<(&str, &str)>)
        ensures
            final(self)@ == (ResponseModel { headers: set_all(old(self)@.headers, values@), ..old(self)@ }),
    {
        let mut i: usize = 0;
        while i < values.len()
            invariant
                0 <= i <= values@.len(),
                self@ == (ResponseModel { headers: set_all(old(self)@.headers, values@.take(i as int)), ..old(self)@ }),
            decreases values@.len() - i,
        {
            assert(values@.take(i + 1).drop_last() =~= values@.take(i as int));
            let (field, value) = values[i];
            self.set(field, value);
            i = i + 1;
        }
        assert(values@.take(values@.len() as int) =~= values@);
    }

    /// Answers with a file's contents and status 200; when the file could not
    /// be read, with the not-found page and status 404. Either way the body's
    /// length is set as `Content-Length`.
    pub fn file(&mut self, content: Option<Vec<u8>>, not_found_page: Option<Vec<u8>>)
        requires
            content is Some || not_found_page is Some,
        ensures
            ({
                let page = match content {
                    Some(c) => c@,
                    None => not_found_page.unwrap()@,
                };
                final(self)@ == (ResponseModel {
                    status: if content is Some { ResponseStatus::OK } else { ResponseStatus::NotFound },
                    headers: header_insert(old(self)@.headers, "Content-Length"@, HeaderValView::Single(decimal(page.len()))),
                    body: Some(page),
                    trailers: old(self)@.trailers,
                })
            }),
    {
        match content {
            Some(c) => {
                self.bytes(bytes_from_vec(c));
                self.status(ResponseStatus::OK);
            },
            None => {
                match not_found_page {
                    Some(page) => {
                        self.bytes(bytes_from_vec(page));
                        self.status(ResponseStatus::NotFound);
                    },
                    None => {},
                }
            },
        }
    }

    /// Sets the status.
    pub fn status(&mut self, status: ResponseStatus)
        ensures
            final(self)@ == (ResponseModel { status, ..old(self)@ }),
    {
        self.status = status;
    }

    /// Sets a text body and its `Content-Length`.
    pub fn text(&mut self, text: String)
        ensures
            final(self)@ == (ResponseModel {
                body: Some(vstd::utf8::encode_utf8(text@)),
                headers: header_insert(old(self)@.headers, "Content-Length"@,
                    HeaderValView::Single(decimal(vstd::utf8::encode_utf8(text@).len()))),
                ..old(self)@
            }),
            header_lookup(final(self)@.headers, "Content-Length"@) matches Some(HeaderValView::Single(v))
                && usize_text_value(v) == Some(vstd::utf8::encode_utf8(text@).len() as usize),
    {
        self.bytes(bytes_from_string(text));
    }

    /// Sets a body and its `Content-Length`.
    pub fn bytes(&mut self, body: Bytes)
        ensures
            final(self)@ == (ResponseModel {
                body: Some(bytes_view(body)),
                headers: header_insert(old(self)@.headers, "Content-Length"@, HeaderValView::Single(decimal(bytes_view(body).len()))),
                ..old(self)@
            }),
            header_lookup(final(self)@.headers, "Content-Length"@) matches Some(HeaderValView::Single(v))
                && usize_text_value(v) == Some(bytes_view(body).len() as usize),
    {
        self.headers.names_distinct();
        proof {
            lemma_decimal_reads_back(bytes_view(body).len());
            lemma_header_insert_lookup(self@.headers, "Content-Length"@,
                HeaderValView::Single(decimal(bytes_view(body).len())), "Content-Length"@);
        }
        let content_len = bytes_len(&body);
        self.body = Some(body);
        let len_text = usize_to_string(content_len);
        self.set("Content-Length", len_text.as_str());
    }
}

/// The fields after setting each pair in order.
pub open spec fn set_all(es: HeaderEntries, values: Seq<(&str, &str)>) -> HeaderEntries
    decreases values.len(),
{
    if values.len() == 0 {
        es
    } else {
        header_insert(set_all(es, values.drop_last()), values.last().0@, HeaderValView::Single(values.last().1@))
    }
}


/// A request handler: fills in the response to a request. Every such closure
/// or function qualifies.
pub trait ReqHandlerFn: Fn(HTTPRequest, &mut HTTPResponse) + Sync + Send {}

impl<F: Fn(HTTPRequest, &mut HTTPResponse) + Sync + Send> ReqHandlerFn for F {}

} // verus!
