//! HTTP/2 streams (RFC 7540 section 5.1): the stream state machine, the
//! assembly of a request from HEADERS, CONTINUATION and DATA frames
//! (section 8.1), and header compression with HPACK (RFC 7541).

use vstd::prelude::*;
use vstd::relations::{sorted_by, total_ordering};
use vstd::utf8::{decode_utf8, encode_scalar, encode_utf8, valid_utf8};
use bytes::{Bytes, BytesMut};
use crate::buf::{
    bytes_as_slice, bytes_from_vec, bytes_len, bytes_mut_as_slice, bytes_mut_clone, bytes_mut_len, bytes_mut_new,
    bytes_mut_view, bytes_view, extend_from_slice, freeze,
};
use crate::http::{
    distinct_names, has_name, header_insert, header_lookup, lemma_lookup_at, same_fields, value_text, HTTPRequest, HeaderEntries, HeaderVal, HeaderValView,
    HeadersMap, RequestModel,
};
use crate::text::{
    char_is_uppercase, chars_of, has_colon_prefix, owned, parse_usize, starts_with_colon, string_from_utf8,
    unicode_uppercase, usize_text_value,
};
use vstd::string::StrSliceExecFns;
use super::window::{data_frames, frame_models, sendable, Window, WindowModel};
use super::frames::{
    contains_flag, has_flag, BodyModel, ErrorCode, Frame, FrameBody, FrameModel, CONTINUATION_END_HEADERS,
    DATA_END_STREAM, HEADERS_END_HEADERS, HEADERS_END_STREAM,
};

verus! {

broadcast use vstd::seq_lib::group_to_multiset_ensures;

// ---------------------------------------------------------------------------
// Byte-string order, as `Ord` of `Vec<u8>` and of pairs orders them.

/// Lexicographic order of byte strings.
pub open spec fn bytes_le(a: Seq<u8>, b: Seq<u8>) -> bool
    decreases a.len(),
{
    if a.len() == 0 {
        true
    } else if b.len() == 0 {
        false
    } else if a[0] != b[0] {
        a[0] < b[0]
    } else {
        bytes_le(a.drop_first(), b.drop_first())
    }
}

/// Lexicographic order of name/value pairs of byte strings.
pub open spec fn pair_le(a: (Seq<u8>, Seq<u8>), b: (Seq<u8>, Seq<u8>)) -> bool {
    if a.0 != b.0 { bytes_le(a.0, b.0) } else { bytes_le(a.1, b.1) }
}

proof fn lemma_bytes_le_refl(a: Seq<u8>)
    ensures
        bytes_le(a, a),
    decreases a.len(),
{
    if a.len() > 0 {
        lemma_bytes_le_refl(a.drop_first());
    }
}

proof fn lemma_bytes_le_antisym(a: Seq<u8>, b: Seq<u8>)
    requires
        bytes_le(a, b),
        bytes_le(b, a),
    ensures
        a == b,
    decreases a.len(),
{
    if a.len() > 0 && b.len() > 0 {
        lemma_bytes_le_antisym(a.drop_first(), b.drop_first());
        assert(a =~= seq![a[0]] + a.drop_first());
        assert(b =~= seq![b[0]] + b.drop_first());
    } else {
        assert(a =~= b);
    }
}

proof fn lemma_bytes_le_trans(a: Seq<u8>, b: Seq<u8>, c: Seq<u8>)
    requires
        bytes_le(a, b),
        bytes_le(b, c),
    ensures
        bytes_le(a, c),
    decreases a.len(),
{
    if a.len() > 0 && b.len() > 0 && c.len() > 0 && a[0] == b[0] && b[0] == c[0] {
        lemma_bytes_le_trans(a.drop_first(), b.drop_first(), c.drop_first());
    }
}

proof fn lemma_bytes_le_total(a: Seq<u8>, b: Seq<u8>)
    ensures
        bytes_le(a, b) || bytes_le(b, a),
    decreases a.len(),
{
    if a.len() > 0 && b.len() > 0 && a[0] == b[0] {
        lemma_bytes_le_total(a.drop_first(), b.drop_first());
    }
}

/// The order of name/value pairs is a total order.
pub proof fn lemma_pair_le_total_ordering()
    ensures
        total_ordering(|a: (Seq<u8>, Seq<u8>), b: (Seq<u8>, Seq<u8>)| pair_le(a, b)),
{
    let r = |a: (Seq<u8>, Seq<u8>), b: (Seq<u8>, Seq<u8>)| pair_le(a, b);
    assert forall|x: (Seq<u8>, Seq<u8>)| #[trigger] r(x, x) by {
        lemma_bytes_le_refl(x.1);
    }
    assert forall|x: (Seq<u8>, Seq<u8>), y: (Seq<u8>, Seq<u8>)| #[trigger] r(x, y) && #[trigger] r(y, x) implies x == y by {
        if x.0 != y.0 {
            lemma_bytes_le_antisym(x.0, y.0);
        } else {
            lemma_bytes_le_antisym(x.1, y.1);
        }
    }
    assert forall|x: (Seq<u8>, Seq<u8>), y: (Seq<u8>, Seq<u8>), z: (Seq<u8>, Seq<u8>)|
        #[trigger] r(x, y) && #[trigger] r(y, z) implies r(x, z) by {
        if x.0 != y.0 && y.0 != z.0 {
            lemma_bytes_le_trans(x.0, y.0, z.0);
            if x.0 == z.0 {
                lemma_bytes_le_antisym(x.0, y.0);
            }
        } else if x.0 != y.0 {
        } else if y.0 != z.0 {
        } else {
            lemma_bytes_le_trans(x.1, y.1, z.1);
        }
    }
    assert forall|x: (Seq<u8>, Seq<u8>), y: (Seq<u8>, Seq<u8>)| #[trigger] r(x, y) || #[trigger] r(y, x) by {
        lemma_bytes_le_total(x.0, y.0);
        lemma_bytes_le_total(x.1, y.1);
    }
}

/// The contents of a vector of byte-string pairs.
pub open spec fn pairs_view(v: Seq<(Vec<u8>, Vec<u8>)>) -> Seq<(Seq<u8>, Seq<u8>)> {
    v.map_values(|p: (Vec<u8>, Vec<u8>)| (p.0@, p.1@))
}

/// `slice::sort` on pairs of byte vectors: a permutation sorted by the
/// lexicographic order that `Ord` gives tuples and vectors.
#[verifier::external_body]
fn sort_pairs(v: &mut Vec<(Vec<u8>, Vec<u8>)>)
    ensures
        pairs_view(final(v)@).to_multiset() == pairs_view(old(v)@).to_multiset(),
        sorted_by(pairs_view(final(v)@), |a: (Seq<u8>, Seq<u8>), b: (Seq<u8>, Seq<u8>)| pair_le(a, b)),
{
    v.sort()
}

// ---------------------------------------------------------------------------
// HPACK

#[verifier::external_type_specification]
#[verifier::external_body]
pub struct ExDecoderError(hpack::decoder::DecoderError);

/// What a fresh `hpack::Encoder` produces for a list of name/value pairs.
pub uninterp spec fn hpack_encoded(headers: Seq<(Seq<u8>, Seq<u8>)>) -> Seq<u8>;

/// What a fresh `hpack::Decoder` decodes from a header block, `None` where
/// it reports an error.
pub uninterp spec fn hpack_decoded(block: Seq<u8>) -> Option<Seq<(Seq<u8>, Seq<u8>)>>;

/// Reading the rest of an HPACK integer (RFC 7541 section 5.1) from position
/// `q`, after `k` continuation octets with value `acc` so far and `scale` the
/// weight of the next one: its value and where it ends; `None` when the
/// octets run out, or a fifth continuation octet would be needed.
pub open spec fn hpack_int_rest(b: Seq<u8>, q: int, k: nat, acc: nat, scale: nat) -> Option<(nat, int)>
    decreases 4 - k,
{
    if k >= 4 || q < 0 || q >= b.len() {
        None
    } else {
        let c = b[q] as nat;
        let acc2 = acc + (c % 128) * scale;
        if c < 128 { Some((acc2, q + 1)) } else { hpack_int_rest(b, q + 1, k + 1, acc2, scale * 128) }
    }
}

/// An HPACK integer whose prefix is the low bits `mask` of the octet at `p`:
/// its value and where it ends, or `None` when it cannot be read.
pub open spec fn hpack_int(b: Seq<u8>, p: int, mask: nat) -> Option<(nat, int)> {
    if p < 0 || p >= b.len() {
        None
    } else {
        let v = (b[p] as nat) % (mask + 1);
        if v < mask { Some((v, p + 1)) } else { hpack_int_rest(b, p + 1, 0, v, 1) }
    }
}

/// Where an HPACK string literal at `p` ends: its length, then its octets.
pub open spec fn hpack_str_end(b: Seq<u8>, p: int) -> Option<int> {
    match hpack_int(b, p, 127) {
        None => None,
        Some((len, q)) => if q + len > b.len() { None } else { Some(q + len) },
    }
}

/// Where an HPACK literal field at `p` ends: the name index (prefix `mask`),
/// the name as a string when the index is zero, then the value.
pub open spec fn hpack_literal_end(b: Seq<u8>, p: int, mask: nat) -> Option<int> {
    match hpack_int(b, p, mask) {
        None => None,
        Some((idx, q)) => {
            let q2 = if idx == 0 { hpack_str_end(b, q) } else { Some(q) };
            match q2 {
                None => None,
                Some(q3) => hpack_str_end(b, q3),
            }
        },
    }
}

/// Where the HPACK field representation at `p` ends (RFC 7541 section 6):
/// indexed (`1xxxxxxx`), literal with incremental indexing (`01xxxxxx`),
/// dynamic table size update (`001xxxxx`), or literal without indexing or
/// never indexed (`000xxxxx`).
pub open spec fn hpack_rep_end(b: Seq<u8>, p: int) -> Option<int> {
    let c = b[p];
    if c >= 128 {
        match hpack_int(b, p, 127) { Some((_, q)) => Some(q), None => None }
    } else if c >= 64 {
        hpack_literal_end(b, p, 63)
    } else if c >= 32 {
        match hpack_int(b, p, 31) { Some((_, q)) => Some(q), None => None }
    } else {
        hpack_literal_end(b, p, 15)
    }
}

/// Whether reading the field representations of a header block in turn, from
/// `p` on, reaches a dynamic table size update whose integer cannot be read.
/// The reading stops where a representation cannot be read.
pub open spec fn hpack_bad_size_update(b: Seq<u8>, p: int) -> bool
    decreases b.len() - p,
{
    if p < 0 || p >= b.len() {
        false
    } else if 32 <= b[p] < 64 && hpack_int(b, p, 31) is None {
        true
    } else {
        match hpack_rep_end(b, p) {
            None => false,
            Some(q) => if p < q <= b.len() { hpack_bad_size_update(b, q) } else { false },
        }
    }
}

/// Reads an HPACK integer (see `hpack_int`).
fn read_hpack_int(b: &[u8], p: usize, mask: u8) -> (r: Option<(usize, usize)>)
    requires
        mask < 255,
    ensures
        match r {
            Some((v, q)) => hpack_int(b@, p as int, mask as nat) == Some((v as nat, q as int)),
            None => hpack_int(b@, p as int, mask as nat) is None,
        },
{
    if p >= b.len() {
        return None;
    }
    let v = (b[p] as u64) % (mask as u64 + 1);
    if v < mask as u64 {
        return Some((v as usize, p + 1));
    }
    let mut acc: u64 = v;
    let mut scale: u64 = 1;
    let mut k: usize = 0;
    let mut q: usize = p + 1;
    while k < 4
        invariant
            0 <= k <= 4,
            p < b@.len(),
            q == p + 1 + k,
            k == 0 ==> scale == 1,
            k == 1 ==> scale == 128,
            k == 2 ==> scale == 16384,
            k == 3 ==> scale == 2097152,
            k == 4 ==> scale == 268435456,
            acc < 256 * scale,
            hpack_int(b@, p as int, mask as nat) == hpack_int_rest(b@, q as int, k as nat, acc as nat, scale as nat),
        decreases 4 - k,
    {
        if q >= b.len() {
            return None;
        }
        let c = b[q];
        let low = (c % 128) as u64;
        assert(low * scale <= 127 * scale) by (nonlinear_arith)
            requires
                low <= 127;
        acc = acc + low * scale;
        if c < 128 {
            return Some((acc as usize, q + 1));
        }
        scale = scale * 128;
        k = k + 1;
        q = q + 1;
    }
    None
}

/// Where an HPACK string literal ends (see `hpack_str_end`).
fn read_hpack_str_end(b: &[u8], p: usize) -> (r: Option<usize>)
    ensures
        match r {
            Some(q) => hpack_str_end(b@, p as int) == Some(q as int),
            None => hpack_str_end(b@, p as int) is None,
        },
{
    match read_hpack_int(b, p, 127) {
        None => None,
        Some((len, q)) => {
            if q > b.len() || len > b.len() - q {
                None
            } else {
                Some(q + len)
            }
        },
    }
}

/// Where an HPACK literal field ends (see `hpack_literal_end`).
fn read_hpack_literal_end(b: &[u8], p: usize, mask: u8) -> (r: Option<usize>)
    requires
        mask < 255,
    ensures
        match r {
            Some(q) => hpack_literal_end(b@, p as int, mask as nat) == Some(q as int),
            None => hpack_literal_end(b@, p as int, mask as nat) is None,
        },
{
    match read_hpack_int(b, p, mask) {
        None => None,
        Some((idx, q)) => {
            let q2 = if idx == 0 {
                match read_hpack_str_end(b, q) {
                    None => return None,
                    Some(x) => x,
                }
            } else {
                q
            };
            read_hpack_str_end(b, q2)
        },
    }
}

/// Where the HPACK field representation at `p` ends (see `hpack_rep_end`).
fn read_hpack_rep_end(b: &[u8], p: usize) -> (r: Option<usize>)
    requires
        p < b@.len(),
    ensures
        match r {
            Some(q) => hpack_rep_end(b@, p as int) == Some(q as int),
            None => hpack_rep_end(b@, p as int) is None,
        },
{
    let c = b[p];
    if c >= 128 {
        match read_hpack_int(b, p, 127) {
            Some((_, q)) => Some(q),
            None => None,
        }
    } else if c >= 64 {
        read_hpack_literal_end(b, p, 63)
    } else if c >= 32 {
        match read_hpack_int(b, p, 31) {
            Some((_, q)) => Some(q),
            None => None,
        }
    } else {
        read_hpack_literal_end(b, p, 15)
    }
}

/// Whether reading the field representations of a header block in turn
/// reaches a dynamic table size update whose integer cannot be read.
pub fn has_bad_size_update(b: &[u8]) -> (r: bool)
    ensures
        r == hpack_bad_size_update(b@, 0),
{
    let mut p: usize = 0;
    while p < b.len()
        invariant
            p <= b@.len(),
            hpack_bad_size_update(b@, 0) == hpack_bad_size_update(b@, p as int),
        decreases b@.len() - p,
    {
        let c = b[p];
        if 32 <= c && c < 64 {
            if read_hpack_int(b, p, 31).is_none() {
                return true;
            }
        }
        match read_hpack_rep_end(b, p) {
            None => return false,
            Some(q) => {
                if q <= p || q > b.len() {
                    return false;
                }
                p = q;
            },
        }
    }
    false
}

/// Whether every name and value is shorter than 2^28 octets, the longest
/// string whose length a decoder reads in at most five octets.
pub open spec fn pairs_fit(ps: Seq<(Seq<u8>, Seq<u8>)>) -> bool {
    forall|i: int| 0 <= i < ps.len() ==> (#[trigger] ps[i]).0.len() < 0x1000_0000 && ps[i].1.len() < 0x1000_0000
}

/// `hpack::Encoder::encode` with a fresh encoder: the encoding of the pairs in
/// order. Each pair becomes an indexed field, a literal with incremental
/// indexing, or a literal without indexing whose name is indexed; the encoder
/// never writes a dynamic table size update, so reading the representations
/// in turn never reaches one. A fresh decoder keeps the same table as the
/// encoder and reads the pairs back, as long as every name and value is short
/// enough for its length to be read; a non-empty list gives a non-empty block.
#[verifier::external_body]
fn hpack_encode(headers: &Vec<(Vec<u8>, Vec<u8>)>) -> (r: Vec<u8>)
    ensures
        r@ == hpack_encoded(pairs_view(headers@)),
        !hpack_bad_size_update(r@, 0),
        pairs_fit(pairs_view(headers@)) ==> hpack_decoded(r@) == Some(pairs_view(headers@)),
        headers@.len() > 0 ==> r@.len() > 0,
{
    let mut encoder = hpack::Encoder::new();
    encoder.encode(headers.iter().map(|h| (&h.0[..], &h.1[..])))
}

/// `hpack::Decoder::decode` with a fresh decoder: the decoded pairs, or the
/// decoder's error. The decoder panics (through an `unwrap`) when it reaches
/// a dynamic table size update whose integer it cannot read; `requires`
/// leaves out every block in which reading the representations in turn
/// reaches such an update.
#[verifier::external_body]
fn hpack_decode(block: &[u8]) -> (r: Result<Vec<(Vec<u8>, Vec<u8>)>, hpack::decoder::DecoderError>)
    requires
        !hpack_bad_size_update(block@, 0),
    ensures
        r matches Ok(v) ==> hpack_decoded(block@) == Some(pairs_view(v@)),
        r is Err ==> hpack_decoded(block@) is None,
{
    let mut decoder = hpack::Decoder::new();
    decoder.decode(block)
}

/// The name/value byte strings that compression encodes for header fields:
/// the UTF-8 name, and the value's text (several values joined by `","`).
pub open spec fn header_pairs(es: HeaderEntries) -> Seq<(Seq<u8>, Seq<u8>)> {
    es.map_values(|e: (Seq<char>, HeaderValView)| (encode_utf8(e.0), encode_utf8(value_text(e.1, ","@))))
}

/// The name/value pairs of header fields in sorted order.
pub open spec fn sorted_pairs(es: HeaderEntries) -> Seq<(Seq<u8>, Seq<u8>)> {
    header_pairs(es).sort_by(|a: (Seq<u8>, Seq<u8>), b: (Seq<u8>, Seq<u8>)| pair_le(a, b))
}

/// The compressed header block of header fields: the HPACK encoding of their
/// name/value pairs in sorted order.
pub open spec fn compressed(es: HeaderEntries) -> Seq<u8> {
    hpack_encoded(sorted_pairs(es))
}

/// The name/value byte strings of header fields, sorted by name and value:
/// what compression hands to the HPACK encoder.
pub fn header_list(hdrs: &HeadersMap) -> (v: Vec<(Vec<u8>, Vec<u8>)>)
    ensures
        pairs_view(v@) == sorted_pairs(hdrs@),
{
    let mut header_vec: Vec<(Vec<u8>, Vec<u8>)> = Vec::new();
    let n = hdrs.len();
    let mut i: usize = 0;
    while i < n
        invariant
            n == hdrs@.len(),
            0 <= i <= n,
            pairs_view(header_vec@) == header_pairs(hdrs@).take(i as int),
        decreases n - i,
    {
        let (k, v) = hdrs.entry(i);
        let kb = vstd::slice::slice_to_vec(k.as_str().as_bytes());
        let vbytes = v.as_bytes();
        let vb = vstd::slice::slice_to_vec(bytes_as_slice(&vbytes));
        let ghost prev = header_vec@;
        header_vec.push((kb, vb));
        assert(pairs_view(header_vec@) =~= pairs_view(prev).push((kb@, vb@)));
        i = i + 1;
        assert(pairs_view(header_vec@) =~= header_pairs(hdrs@).take(i as int));
    }
    assert(header_pairs(hdrs@).take(n as int) =~= header_pairs(hdrs@));
    let ghost unsorted = pairs_view(header_vec@);
    sort_pairs(&mut header_vec);
    proof {
        let leq = |a: (Seq<u8>, Seq<u8>), b: (Seq<u8>, Seq<u8>)| pair_le(a, b);
        lemma_pair_le_total_ordering();
        unsorted.lemma_sort_by_ensures(leq);
        vstd::seq_lib::lemma_sorted_unique(pairs_view(header_vec@), unsorted.sort_by(leq), leq);
    }
    header_vec
}

/// Compresses headers using HPACK, the fields sorted by name and value.
///
/// Fields that are ready for it (see `round_trip_ready`) come back from
/// `decompress_header`: the same fields, pseudo-headers first.
pub fn compress_header(hdrs: &HeadersMap) -> (b: Bytes)
    ensures
        bytes_view(b) == compressed(hdrs@),
        round_trip_ready(hdrs@) ==> (decompressed(bytes_view(b)) matches Ok(back) && same_fields(back, hdrs@)),
{
    let header_vec = header_list(hdrs);
    proof {
        if round_trip_ready(hdrs@) {
            lemma_sorted_pairs_fit(hdrs@);
        }
    }
    let block = hpack_encode(&header_vec);
    proof {
        if round_trip_ready(hdrs@) {
            lemma_round_trip(hdrs@, block@);
        }
    }
    bytes_from_vec(block)
}

/// The value after receiving one more value for a field.
pub open spec fn merge_value(prev: Option<HeaderValView>, v: Seq<char>) -> HeaderValView {
    match prev {
        Some(HeaderValView::Single(p)) => HeaderValView::Multiple(seq![p, v]),
        Some(HeaderValView::Multiple(ps)) => HeaderValView::Multiple(ps.push(v)),
        None => HeaderValView::Single(v),
    }
}

/// The header fields gathered from decoded pairs, and whether only
/// pseudo-headers have been seen so far; an error for text that is not
/// UTF-8, or for a pseudo-header after a regular field.
pub open spec fn gather_headers(list: Seq<(Seq<u8>, Seq<u8>)>) -> Result<(HeaderEntries, bool), ErrorCode>
    decreases list.len(),
{
    if list.len() == 0 {
        Ok((Seq::empty(), true))
    } else {
        match gather_headers(list.drop_last()) {
            Err(e) => Err(e),
            Ok((es, pseudo)) => {
                let (k, v) = list.last();
                if !valid_utf8(k) || !valid_utf8(v) {
                    Err(ErrorCode::CompressionError)
                } else {
                    let key = decode_utf8(k);
                    let val = decode_utf8(v);
                    if !pseudo && starts_with_colon(key) {
                        Err(ErrorCode::ProtocolError)
                    } else {
                        Ok((header_insert(es, key, merge_value(header_lookup(es, key), val)), pseudo && starts_with_colon(key)))
                    }
                }
            },
        }
    }
}

/// The header fields that a header block decompresses to.
pub open spec fn decompressed(block: Seq<u8>) -> Result<HeaderEntries, ErrorCode> {
    if hpack_bad_size_update(block, 0) {
        Err(ErrorCode::CompressionError)
    } else {
        match hpack_decoded(block) {
            None => Err(ErrorCode::CompressionError),
            Some(list) => match gather_headers(list) {
                Ok((es, _)) => Ok(es),
                Err(e) => Err(e),
            },
        }
    }
}

/// Decompresses a header block using HPACK; several values of one field are
/// gathered in order of arrival.
pub fn decompress_header(bytes: &[u8]) -> (r: Result<HeadersMap, ErrorCode>)
    ensures
        match (r, decompressed(bytes@)) {
            (Ok(m), Ok(es)) => m@ == es,
            (Err(e), Err(f)) => e == f,
            _ => false,
        },
{
    // A block the decoder cannot read to the end without failing on a table
    // size update is refused here.
    if has_bad_size_update(bytes) {
        return Err(ErrorCode::CompressionError);
    }
    match hpack_decode(bytes) {
        Ok(list) => gather_header_list(list),
        Err(_) => Err(ErrorCode::CompressionError),
    }
}

/// Gathers decoded name/value pairs into header fields: several values of one
/// field in order of arrival; an error for text that is not UTF-8, or for a
/// pseudo-header after a regular field.
pub fn gather_header_list(header_list: Vec<(Vec<u8>, Vec<u8>)>) -> (r: Result<HeadersMap, ErrorCode>)
    ensures
        match (r, gather_headers(pairs_view(header_list@))) {
            (Ok(m), Ok((es, _))) => m@ == es,
            (Err(e), Err(f)) => e == f,
            _ => false,
        },
{
    let ghost list = pairs_view(header_list@);
    let mut pseudo_headers = true;
    let mut hdrs = HeadersMap::new();
    let mut i: usize = 0;
    while i < header_list.len()
        invariant
            0 <= i <= header_list@.len(),
            list == pairs_view(header_list@),
            gather_headers(list.take(i as int)) == Ok::<(HeaderEntries, bool), ErrorCode>((hdrs@, pseudo_headers)),
        decreases header_list@.len() - i,
    {
        assert(list.take(i + 1).drop_last() =~= list.take(i as int));
        assert(list.take(i + 1).last() == list[i as int]);
        let (key, value) = &header_list[i];
        let key_str = match string_from_utf8(key.clone()) {
            Some(s) => s,
            None => {
                proof { lemma_gather_err(list, i as int + 1); }
                return Err(ErrorCode::CompressionError);
            },
        };
        let value_str = match string_from_utf8(value.clone()) {
            Some(s) => s,
            None => {
                proof { lemma_gather_err(list, i as int + 1); }
                return Err(ErrorCode::CompressionError);
            },
        };
        let is_pseudo = crate::text::has_colon_prefix(key_str.as_str());
        if !pseudo_headers && is_pseudo {
            proof { lemma_gather_err(list, i as int + 1); }
            return Err(ErrorCode::ProtocolError);
        }
        if pseudo_headers && !is_pseudo {
            pseudo_headers = false;
        }
        let new_val = match hdrs.get(key_str.as_str()) {
            Some(HeaderVal::Single(prev_val)) => {
                let mut vals: Vec<String> = Vec::new();
                vals.push(prev_val.clone());
                vals.push(value_str);
                assert(crate::http::texts(vals@) =~= seq![prev_val@, decode_utf8(list[i as int].1)]);
                HeaderVal::Multiple(vals)
            },
            Some(HeaderVal::Multiple(prev_vals)) => {
                let mut vs = prev_vals.clone();
                assert(crate::http::texts(vs@) =~= crate::http::texts(prev_vals@));
                let ghost t = crate::http::texts(vs@);
                vs.push(value_str);
                assert(crate::http::texts(vs@) =~= t.push(decode_utf8(list[i as int].1)));
                HeaderVal::Multiple(vs)
            },
            None => HeaderVal::Single(value_str),
        };
        hdrs.insert(key_str, new_val);
        i = i + 1;
    }
    assert(list.take(header_list@.len() as int) =~= list);
    Ok(hdrs)
}

/// Once gathering fails, gathering more pairs fails the same way.
proof fn lemma_gather_err(list: Seq<(Seq<u8>, Seq<u8>)>, i: int)
    requires
        0 < i <= list.len(),
        gather_headers(list.take(i)) is Err,
    ensures
        gather_headers(list) == gather_headers(list.take(i)),
    decreases list.len() - i,
{
    if i == list.len() {
        assert(list.take(i) =~= list);
    } else {
        assert(list.take(i + 1).drop_last() =~= list.take(i));
        lemma_gather_err(list, i + 1);
    }
}


// ---------------------------------------------------------------------------
// Request assembly (RFC 7540 section 8.1)

/// Where the assembly of a request stands.
#[derive(PartialEq, Eq, Debug, Clone, Copy, Structural)]
pub enum ReqAssemblerState {
    Init,
    ReadingHeader,
    ReadingBody,
    ReadingTrailer,
    Done,
}

/// Gathers the header block, body and trailer block of a request.
pub struct ReqAssembler {
    hdr_block: BytesMut,
    body: BytesMut,
    trailer_block: BytesMut,
    state: ReqAssemblerState,
}

/// An assembler as a mathematical value.
pub struct AssemblerModel {
    pub hdr_block: Seq<u8>,
    pub body: Seq<u8>,
    pub trailer_block: Seq<u8>,
    pub state: ReqAssemblerState,
}

impl View for ReqAssembler {
    type V = AssemblerModel;

    closed spec fn view(&self) -> AssemblerModel {
        AssemblerModel {
            hdr_block: bytes_mut_view(self.hdr_block),
            body: bytes_mut_view(self.body),
            trailer_block: bytes_mut_view(self.trailer_block),
            state: self.state,
        }
    }
}

/// What receiving a frame does to an assembler, and whether the frame was out
/// of place.
pub open spec fn assembler_recv(m: AssemblerModel, f: FrameModel) -> (AssemblerModel, Result<(), ()>) {
    let flags = f.header.flags;
    match m.state {
        ReqAssemblerState::Init => match f.payload {
            BodyModel::Headers { hdr_block_frag, .. } => (AssemblerModel {
                hdr_block: m.hdr_block + hdr_block_frag,
                state: if has_flag(flags, HEADERS_END_STREAM) {
                    ReqAssemblerState::Done
                } else if has_flag(flags, HEADERS_END_HEADERS) {
                    ReqAssemblerState::ReadingBody
                } else {
                    ReqAssemblerState::ReadingHeader
                },
                ..m
            }, Ok(())),
            _ => (m, Ok(())),
        },
        ReqAssemblerState::ReadingHeader => match f.payload {
            BodyModel::Continuation { hdr_block_frag } => (AssemblerModel {
                hdr_block: m.hdr_block + hdr_block_frag,
                state: if has_flag(flags, CONTINUATION_END_HEADERS) { ReqAssemblerState::ReadingBody } else { m.state },
                ..m
            }, Ok(())),
            _ => (m, Err(())),
        },
        ReqAssemblerState::ReadingBody => match f.payload {
            BodyModel::Data { data, .. } => (AssemblerModel {
                body: m.body + data,
                state: if has_flag(flags, DATA_END_STREAM) { ReqAssemblerState::Done } else { m.state },
                ..m
            }, Ok(())),
            BodyModel::Headers { hdr_block_frag, .. } => {
                let m2 = AssemblerModel { trailer_block: m.trailer_block + hdr_block_frag, ..m };
                if has_flag(flags, HEADERS_END_STREAM) {
                    (AssemblerModel {
                        state: if has_flag(flags, HEADERS_END_HEADERS) { ReqAssemblerState::Done } else { ReqAssemblerState::ReadingTrailer },
                        ..m2
                    }, Ok(()))
                } else {
                    (m2, Err(()))
                }
            },
            _ => (m, Err(())),
        },
        ReqAssemblerState::ReadingTrailer => match f.payload {
            BodyModel::Continuation { hdr_block_frag } => (AssemblerModel {
                trailer_block: m.trailer_block + hdr_block_frag,
                state: if has_flag(flags, CONTINUATION_END_HEADERS) { ReqAssemblerState::Done } else { m.state },
                ..m
            }, Ok(())),
            _ => (m, Ok(())),
        },
        ReqAssemblerState::Done => (m, Ok(())),
    }
}

/// An assembler after receiving frames in turn, and whether none of them was
/// out of place.
pub open spec fn assembler_run(m: AssemblerModel, fs: Seq<FrameModel>) -> (AssemblerModel, bool)
    decreases fs.len(),
{
    if fs.len() == 0 {
        (m, true)
    } else {
        let (m1, ok) = assembler_run(m, fs.drop_last());
        let (m2, r) = assembler_recv(m1, fs.last());
        (m2, ok && r is Ok)
    }
}

/// The data that DATA frames carry, one after the other.
pub open spec fn data_carried(fs: Seq<FrameModel>) -> Seq<u8>
    decreases fs.len(),
{
    if fs.len() == 0 {
        Seq::empty()
    } else {
        data_carried(fs.drop_last()) + match fs.last().payload {
            BodyModel::Data { data, .. } => data,
            _ => Seq::empty(),
        }
    }
}

/// A body may come in any number of DATA frames: once the header block is
/// complete, DATA frames without END_STREAM are each accepted and append
/// their data to the body, in order, leaving the header block and the
/// trailers alone and the assembler waiting for more; the request is
/// complete exactly when one carries END_STREAM.
pub proof fn lemma_body_in_data_frames(m: AssemblerModel, fs: Seq<FrameModel>)
    requires
        m.state == ReqAssemblerState::ReadingBody,
        forall|i: int| 0 <= i < fs.len() ==> (#[trigger] fs[i]).payload is Data,
        forall|i: int| 0 <= i < fs.len() - 1 ==> !has_flag((#[trigger] fs[i]).header.flags, DATA_END_STREAM),
    ensures
        assembler_run(m, fs).1,
        assembler_run(m, fs).0.body == m.body + data_carried(fs),
        assembler_run(m, fs).0.hdr_block == m.hdr_block,
        assembler_run(m, fs).0.trailer_block == m.trailer_block,
        assembler_run(m, fs).0.state == (if fs.len() > 0 && has_flag(fs.last().header.flags, DATA_END_STREAM) {
            ReqAssemblerState::Done
        } else {
            ReqAssemblerState::ReadingBody
        }),
    decreases fs.len(),
{
    if fs.len() > 0 {
        let init = fs.drop_last();
        assert forall|i: int| 0 <= i < init.len() implies (#[trigger] init[i]).payload is Data by {
            assert(init[i] == fs[i]);
        }
        assert forall|i: int| 0 <= i < init.len() - 1 implies !has_flag((#[trigger] init[i]).header.flags, DATA_END_STREAM) by {
            assert(init[i] == fs[i]);
        }
        lemma_body_in_data_frames(m, init);
        if init.len() > 0 {
            assert(init.last() == fs[fs.len() - 2]);
        }
        assert(fs.last() == fs[fs.len() - 1]);
        assert(m.body + data_carried(fs) =~= (m.body + data_carried(init)) + fs.last().payload->Data_data);
    }
}

/// The text of a field that holds exactly one value.
pub open spec fn single_value(es: HeaderEntries, name: Seq<char>) -> Option<Seq<char>> {
    match header_lookup(es, name) {
        Some(HeaderValView::Single(v)) => Some(v),
        _ => None,
    }
}

/// The pseudo-headers a request may carry.
pub open spec fn is_known_pseudo(k: Seq<char>) -> bool {
    k == ":method"@ || k == ":scheme"@ || k == ":path"@ || k == ":authority"@
}

/// Whether a field name is acceptable in a request (RFC 7540 sections 8.1.2,
/// 8.1.2.2): no upper-case character, no unknown pseudo-header, no
/// `connection`, and `te` only as `trailers`.
pub open spec fn field_name_ok(es: HeaderEntries, k: Seq<char>) -> bool {
    &&& forall|i: int| 0 <= i < k.len() ==> !unicode_uppercase(#[trigger] k[i])
    &&& !(starts_with_colon(k) && !is_known_pseudo(k))
    &&& k != "connection"@
    &&& (k == "te"@ ==> single_value(es, k) == Some("trailers"@))
}

/// Whether the fields of a request are acceptable (RFC 7540 section 8.1.2.6):
/// single `:method`, `:scheme` and non-empty `:path`, acceptable names, and a
/// `content-length`, if any, that is a single number equal to the body length.
pub open spec fn request_fields_ok(es: HeaderEntries, body_len: nat) -> bool {
    &&& single_value(es, ":method"@) is Some
    &&& single_value(es, ":scheme"@) is Some
    &&& single_value(es, ":path"@) matches Some(p) && p.len() > 0
    &&& forall|i: int| 0 <= i < es.len() ==> field_name_ok(es, #[trigger] es[i].0)
    &&& match header_lookup(es, "content-length"@) {
        None => true,
        Some(HeaderValView::Single(v)) => usize_text_value(v) matches Some(n) && n == body_len,
        Some(HeaderValView::Multiple(_)) => false,
    }
}

/// Whether trailers hold no pseudo-header.
pub open spec fn trailers_ok(t: Option<HeaderEntries>) -> bool {
    match t {
        Some(es) => no_pseudo(es),
        None => true,
    }
}

/// Whether no field is a pseudo-header.
pub open spec fn no_pseudo(es: HeaderEntries) -> bool {
    forall|i: int| 0 <= i < es.len() ==> !starts_with_colon(#[trigger] es[i].0)
}

/// The trailers of a trailer block: none when the block is empty.
pub open spec fn trailers_of(block: Seq<u8>) -> Result<Option<HeaderEntries>, ErrorCode> {
    if block.len() == 0 {
        Ok(None)
    } else {
        match decompressed(block) {
            Ok(t) => Ok(Some(t)),
            Err(_) => Err(ErrorCode::CompressionError),
        }
    }
}

/// The request that a finished assembler yields, or why there is none.
pub open spec fn assembled(m: AssemblerModel) -> Result<RequestModel, ErrorCode> {
    if m.state != ReqAssemblerState::Done {
        Err(ErrorCode::ProtocolError)
    } else {
        match decompressed(m.hdr_block) {
            Err(_) => Err(ErrorCode::CompressionError),
            Ok(headers) => match trailers_of(m.trailer_block) {
                Err(e) => Err(e),
                Ok(trailers) => request_of_parts(headers, if m.body.len() == 0 { None } else { Some(m.body) }, trailers),
            },
        }
    }
}

/// The request made of its header fields, body and trailers, when they are
/// acceptable (see `request_fields_ok` and `trailers_ok`).
pub open spec fn request_of_parts(headers: HeaderEntries, body: Option<Seq<u8>>, trailers: Option<HeaderEntries>) -> Result<RequestModel, ErrorCode> {
    let body_len = match body {
        Some(b) => b.len(),
        None => 0,
    };
    if request_fields_ok(headers, body_len) && trailers_ok(trailers) {
        Ok(RequestModel {
            method: single_value(headers, ":method"@).unwrap(),
            path: single_value(headers, ":path"@).unwrap(),
            protocol: "HTTP/2"@,
            headers,
            body,
            trailers,
        })
    } else {
        Err(ErrorCode::ProtocolError)
    }
}

/// Whether two strings hold the same text.
fn same_text(a: &String, b: &str) -> (r: bool)
    ensures
        r == (a@ == b@),
{
    *a == owned(b)
}

/// The value of a field that holds exactly one value; a protocol error if it
/// is missing or holds several.
pub fn hdr_field_try_get_single_val(hdr_map: &HeadersMap, field_name: &str) -> (r: Result<String, ErrorCode>)
    ensures
        match single_value(hdr_map@, field_name@) {
            Some(v) => r matches Ok(s) && s@ == v,
            None => r == Err::<String, ErrorCode>(ErrorCode::ProtocolError),
        },
{
    match hdr_map.get(field_name) {
        Some(HeaderVal::Single(val)) => Ok(val.clone()),
        _ => Err(ErrorCode::ProtocolError),
    }
}

/// Whether a field name is acceptable in a request (see `field_name_ok`).
fn check_field_name(headers: &HeadersMap, key: &String) -> (r: bool)
    ensures
        r == field_name_ok(headers@, key@),
{
    let cs = chars_of(key.as_str());
    let mut i: usize = 0;
    while i < cs.len()
        invariant
            0 <= i <= cs@.len(),
            cs@ == key@,
            forall|j: int| 0 <= j < i ==> !unicode_uppercase(#[trigger] key@[j]),
        decreases cs@.len() - i,
    {
        if char_is_uppercase(cs[i]) {
            return false;
        }
        i = i + 1;
    }
    let known = same_text(key, ":method") || same_text(key, ":scheme") || same_text(key, ":path") || same_text(key, ":authority");
    if has_colon_prefix(key.as_str()) && !known {
        return false;
    }
    if same_text(key, "connection") {
        return false;
    }
    if same_text(key, "te") {
        match hdr_field_try_get_single_val(headers, key.as_str()) {
            Ok(v) => {
                if !same_text(&v, "trailers") {
                    return false;
                }
            },
            Err(_) => return false,
        }
    }
    true
}

impl ReqAssembler {
    /// An assembler that has received nothing.
    pub fn new() -> (a: Self)
        ensures
            a@ == (AssemblerModel {
                hdr_block: Seq::empty(),
                body: Seq::empty(),
                trailer_block: Seq::empty(),
                state: ReqAssemblerState::Init,
            }),
    {
        ReqAssembler {
            hdr_block: bytes_mut_new(),
            body: bytes_mut_new(),
            trailer_block: bytes_mut_new(),
            state: ReqAssemblerState::Init,
        }
    }

    /// Takes in one frame of the stream; an error for a frame out of place
    /// (after which the assembly is not to be continued).
    pub fn recv_frame(&mut self, frame: Frame) -> (r: Result<(), ()>)
        ensures
            (final(self)@, r) == assembler_recv(old(self)@, frame@),
    {
        let flags = frame.header.flags;
        match self.state {
            ReqAssemblerState::Init => match &frame.payload {
                FrameBody::Headers { hdr_block_frag, .. } => {
                    append(&mut self.hdr_block, hdr_block_frag);
                    self.state = if contains_flag(flags, HEADERS_END_STREAM) {
                        ReqAssemblerState::Done
                    } else if contains_flag(flags, HEADERS_END_HEADERS) {
                        ReqAssemblerState::ReadingBody
                    } else {
                        ReqAssemblerState::ReadingHeader
                    };
                    Ok(())
                },
                _ => Ok(()),
            },
            ReqAssemblerState::ReadingHeader => match &frame.payload {
                FrameBody::Continuation { hdr_block_frag } => {
                    append(&mut self.hdr_block, hdr_block_frag);
                    if contains_flag(flags, CONTINUATION_END_HEADERS) {
                        self.state = ReqAssemblerState::ReadingBody;
                    }
                    Ok(())
                },
                _ => Err(()),
            },
            ReqAssemblerState::ReadingBody => match &frame.payload {
                FrameBody::Data { data, .. } => {
                    append(&mut self.body, data);
                    if contains_flag(flags, DATA_END_STREAM) {
                        self.state = ReqAssemblerState::Done;
                    }
                    Ok(())
                },
                FrameBody::Headers { hdr_block_frag, .. } => {
                    append(&mut self.trailer_block, hdr_block_frag);
                    if contains_flag(flags, HEADERS_END_STREAM) {
                        if contains_flag(flags, HEADERS_END_HEADERS) {
                            self.state = ReqAssemblerState::Done;
                        } else {
                            self.state = ReqAssemblerState::ReadingTrailer;
                        }
                        Ok(())
                    } else {
                        Err(())
                    }
                },
                _ => Err(()),
            },
            ReqAssemblerState::ReadingTrailer => match &frame.payload {
                FrameBody::Continuation { hdr_block_frag } => {
                    append(&mut self.trailer_block, hdr_block_frag);
                    if contains_flag(flags, CONTINUATION_END_HEADERS) {
                        self.state = ReqAssemblerState::Done;
                    }
                    Ok(())
                },
                _ => Ok(()),
            },
            ReqAssemblerState::Done => Ok(()),
        }
    }

    /// The request, once it is complete and acceptable.
    #[verifier::loop_isolation(false)]
    pub fn assemble(&self) -> (r: Result<HTTPRequest, ErrorCode>)
        ensures
            match (r, assembled(self@)) {
                (Ok(req), Ok(m)) => req@ == m,
                (Err(e), Err(f)) => e == f,
                _ => false,
            },
    {
        match self.state {
            ReqAssemblerState::Done => {},
            _ => return Err(ErrorCode::ProtocolError),
        }
        let headers = match decompress_header(bytes_mut_as_slice(&self.hdr_block)) {
            Ok(h) => h,
            Err(_) => return Err(ErrorCode::CompressionError),
        };
        let body: Option<Bytes> = if bytes_mut_len(&self.body) == 0 {
            None
        } else {
            Some(freeze(bytes_mut_clone(&self.body)))
        };
        let trailers: Option<HeadersMap> = if bytes_mut_len(&self.trailer_block) == 0 {
            None
        } else {
            match decompress_header(bytes_mut_as_slice(&self.trailer_block)) {
                Ok(t) => Some(t),
                Err(_) => return Err(ErrorCode::CompressionError),
            }
        };
        let ghost tr = crate::http::opt_headers(trailers);
        assert(trailers_of(self@.trailer_block) == Ok::<Option<HeaderEntries>, ErrorCode>(tr));
        request_from_parts(headers, body, trailers)
    }

    /// Where the assembly stands.
    pub fn get_state(&self) -> (s: ReqAssemblerState)
        ensures
            s == self@.state,
    {
        self.state
    }
}

/// A request from its header fields, body and trailers, checked as RFC 7540
/// section 8.1.2 asks: a protocol error when they are not acceptable.
pub fn request_from_parts(headers: HeadersMap, body: Option<Bytes>, trailers: Option<HeadersMap>) -> (r: Result<HTTPRequest, ErrorCode>)
    ensures
        match (r, request_of_parts(headers@, crate::http::opt_bytes(body), crate::http::opt_headers(trailers))) {
            (Ok(req), Ok(m)) => req@ == m,
            (Err(e), Err(f)) => e == f,
            _ => false,
        },
{
    // Validate the request, see RFC 7540 section 8.1.2.6
    let method = match hdr_field_try_get_single_val(&headers, ":method") {
        Ok(m) => m,
        Err(e) => return Err(e),
    };
    let _scheme = match hdr_field_try_get_single_val(&headers, ":scheme") {
        Ok(s) => s,
        Err(e) => return Err(e),
    };
    let path = match hdr_field_try_get_single_val(&headers, ":path") {
        Ok(p) => p,
        Err(e) => return Err(e),
    };
    if path.as_str().unicode_len() == 0 {
        return Err(ErrorCode::ProtocolError);
    }

    // Section 8.1.2
    let n = headers.len();
    let mut i: usize = 0;
    while i < n
        invariant
            n == headers@.len(),
            0 <= i <= n,
            forall|j: int| 0 <= j < i ==> field_name_ok(headers@, #[trigger] headers@[j].0),
        decreases n - i,
    {
        let (key, _) = headers.entry(i);
        if !check_field_name(&headers, key) {
            return Err(ErrorCode::ProtocolError);
        }
        i = i + 1;
    }

    // Validate content-length
    let body_len = match &body {
        Some(b) => bytes_len(b),
        None => 0,
    };
    match headers.get("content-length") {
        Some(HeaderVal::Single(content_length)) => {
            match parse_usize(content_length.as_str()) {
                Some(len) => {
                    if len != body_len {
                        return Err(ErrorCode::ProtocolError);
                    }
                },
                None => return Err(ErrorCode::ProtocolError),
            }
        },
        Some(_) => return Err(ErrorCode::ProtocolError),
        None => {},
    }

    // Pseudo-headers must not occur in trailers
    match &trailers {
        Some(t) => {
            let tn = t.len();
            let mut j: usize = 0;
            while j < tn
                invariant
                    tn == t@.len(),
                    0 <= j <= tn,
                    crate::http::opt_headers(trailers) == Some(t@),
                    forall|k: int| 0 <= k < j ==> !starts_with_colon(#[trigger] t@[k].0),
                decreases tn - j,
            {
                let (key, _) = t.entry(j);
                if has_colon_prefix(key.as_str()) {
                    assert(starts_with_colon(t@[j as int].0));
                    assert(!no_pseudo(t@));
                    assert(!trailers_ok(crate::http::opt_headers(trailers)));
                    return Err(ErrorCode::ProtocolError);
                }
                j = j + 1;
            }
        },
        None => {},
    }

    let mut req = HTTPRequest::new(method.as_str(), path.as_str(), "HTTP/2");
    req.headers = headers;
    req.body = body;
    req.trailers = trailers;
    Ok(req)
}

/// Appends a buffer's bytes to a growable buffer.
fn append(dst: &mut BytesMut, src: &Bytes)
    ensures
        bytes_mut_view(*final(dst)) == bytes_mut_view(*old(dst)) + bytes_view(*src),
{
    let _a = bytes_mut_len(dst);
    let _b = bytes_len(src);
    extend_from_slice(dst, bytes_as_slice(src));
}


// ---------------------------------------------------------------------------
// Streams (RFC 7540 section 5.1)

/// The states of a stream.
#[derive(PartialEq, Eq, Clone, Copy, Debug, Structural)]
pub enum StreamState {
    Idle,
    Open,
    ReservedLocal,
    ReservedRemote,
    HalfClosedRemote,
    HalfClosedLocal,
    Closed,
}

impl StreamState {
    /// Whether a stream in this state counts toward the concurrent streams.
    pub open spec fn spec_is_active(self) -> bool {
        match self {
            StreamState::Open | StreamState::HalfClosedLocal | StreamState::HalfClosedRemote => true,
            _ => false,
        }
    }

    /// Whether a stream in this state counts toward the concurrent streams.
    #[verifier::when_used_as_spec(spec_is_active)]
    pub fn is_active(self) -> (r: bool)
        ensures
            r == self.spec_is_active(),
    {
        match self {
            StreamState::Open | StreamState::HalfClosedLocal | StreamState::HalfClosedRemote => true,
            _ => false,
        }
    }
}

/// Whether a frame ends its stream: a HEADERS or DATA frame with END_STREAM.
pub open spec fn end_of_stream(f: FrameModel) -> bool {
    match f.payload {
        BodyModel::Headers { .. } => has_flag(f.header.flags, HEADERS_END_STREAM),
        BodyModel::Data { .. } => has_flag(f.header.flags, DATA_END_STREAM),
        _ => false,
    }
}

/// The state after receiving a frame, or the error that the frame is in this state.
pub open spec fn recv_transition(s: StreamState, f: FrameModel) -> Result<StreamState, ErrorCode> {
    match s {
        StreamState::Idle => match f.payload {
            BodyModel::PushPromise { .. } => Ok(StreamState::ReservedRemote),
            BodyModel::Headers { .. } => Ok(if end_of_stream(f) { StreamState::HalfClosedRemote } else { StreamState::Open }),
            BodyModel::Priority { .. } => Ok(StreamState::Idle),
            _ => Err(ErrorCode::ProtocolError),
        },
        StreamState::Open => if end_of_stream(f) {
            Ok(StreamState::HalfClosedRemote)
        } else {
            match f.payload {
                BodyModel::RstStream { .. } => Ok(StreamState::Closed),
                _ => Ok(s),
            }
        },
        StreamState::ReservedRemote => match f.payload {
            BodyModel::RstStream { .. } => Ok(StreamState::Closed),
            BodyModel::Headers { .. } => Ok(StreamState::HalfClosedLocal),
            BodyModel::Priority { .. } => Ok(StreamState::ReservedRemote),
            _ => Err(ErrorCode::ProtocolError),
        },
        StreamState::ReservedLocal => match f.payload {
            BodyModel::RstStream { .. } => Ok(StreamState::Closed),
            BodyModel::WindowUpdate { .. } | BodyModel::Priority { .. } => Ok(StreamState::ReservedLocal),
            _ => Err(ErrorCode::ProtocolError),
        },
        StreamState::HalfClosedRemote => match f.payload {
            BodyModel::RstStream { .. } => Ok(StreamState::Closed),
            BodyModel::WindowUpdate { .. } | BodyModel::Priority { .. } => Ok(StreamState::HalfClosedRemote),
            _ => Err(ErrorCode::StreamClosed),
        },
        StreamState::HalfClosedLocal => if end_of_stream(f) {
            Ok(StreamState::Closed)
        } else {
            match f.payload {
                BodyModel::RstStream { .. } => Ok(StreamState::Closed),
                _ => Ok(s),
            }
        },
        StreamState::Closed => match f.payload {
            BodyModel::RstStream { .. } | BodyModel::WindowUpdate { .. } | BodyModel::Priority { .. } => Ok(StreamState::Closed),
            _ => Err(ErrorCode::StreamClosed),
        },
    }
}

/// The state after sending a frame.
pub open spec fn send_transition(s: StreamState, f: FrameModel) -> StreamState {
    match s {
        StreamState::Idle => match f.payload {
            BodyModel::PushPromise { .. } => StreamState::ReservedLocal,
            BodyModel::Headers { .. } => if end_of_stream(f) { StreamState::HalfClosedLocal } else { StreamState::Open },
            _ => s,
        },
        StreamState::Open => if end_of_stream(f) {
            StreamState::HalfClosedLocal
        } else {
            match f.payload {
                BodyModel::RstStream { .. } => StreamState::Closed,
                _ => s,
            }
        },
        StreamState::ReservedLocal => match f.payload {
            BodyModel::Headers { .. } => StreamState::HalfClosedRemote,
            BodyModel::RstStream { .. } => StreamState::Closed,
            _ => s,
        },
        StreamState::HalfClosedRemote => if end_of_stream(f) {
            StreamState::Closed
        } else {
            match f.payload {
                BodyModel::RstStream { .. } => StreamState::Closed,
                _ => s,
            }
        },
        StreamState::ReservedRemote | StreamState::HalfClosedLocal => match f.payload {
            BodyModel::RstStream { .. } => StreamState::Closed,
            _ => s,
        },
        StreamState::Closed => s,
    }
}

/// A closed stream stays closed: sending leaves it closed, and a received
/// frame either leaves it closed or is refused with STREAM_CLOSED.
pub proof fn lemma_closed_is_final(f: FrameModel)
    ensures
        send_transition(StreamState::Closed, f) == StreamState::Closed,
        recv_transition(StreamState::Closed, f) == Ok::<StreamState, ErrorCode>(StreamState::Closed)
            || recv_transition(StreamState::Closed, f) == Err::<StreamState, ErrorCode>(ErrorCode::StreamClosed),
{
}

/// RST_STREAM ends a stream: received on any stream that is not idle, and
/// sent on any stream that is neither idle nor closed, it leaves the stream
/// closed; received on an idle stream it is a protocol error.
pub proof fn lemma_rst_stream_closes(s: StreamState, f: FrameModel)
    requires
        f.payload is RstStream,
    ensures
        s != StreamState::Idle ==> recv_transition(s, f) == Ok::<StreamState, ErrorCode>(StreamState::Closed),
        s == StreamState::Idle ==> recv_transition(s, f) == Err::<StreamState, ErrorCode>(ErrorCode::ProtocolError),
        s != StreamState::Idle ==> send_transition(s, f) == StreamState::Closed,
{
}

/// Only END_STREAM and RST_STREAM take a stream out of the open state on
/// receipt: every other frame, a DATA frame carrying part of a body among
/// them, leaves it open; END_STREAM half-closes it (remote) and RST_STREAM
/// closes it. Likewise a stream half-closed (local) stays so until one of
/// them closes it.
pub proof fn lemma_open_until_end_of_stream(f: FrameModel)
    ensures
        !end_of_stream(f) && !(f.payload is RstStream) ==>
            recv_transition(StreamState::Open, f) == Ok::<StreamState, ErrorCode>(StreamState::Open),
        end_of_stream(f) ==> recv_transition(StreamState::Open, f) == Ok::<StreamState, ErrorCode>(StreamState::HalfClosedRemote),
        f.payload is RstStream ==> recv_transition(StreamState::Open, f) == Ok::<StreamState, ErrorCode>(StreamState::Closed),
        !end_of_stream(f) && !(f.payload is RstStream) ==>
            recv_transition(StreamState::HalfClosedLocal, f) == Ok::<StreamState, ErrorCode>(StreamState::HalfClosedLocal),
        end_of_stream(f) || f.payload is RstStream ==>
            recv_transition(StreamState::HalfClosedLocal, f) == Ok::<StreamState, ErrorCode>(StreamState::Closed),
{
}

/// A DATA frame can end a stream only with its END_STREAM flag: such a frame
/// without the flag never closes or half-closes a stream it is accepted on.
pub proof fn lemma_data_without_end_keeps_state(s: StreamState, f: FrameModel)
    requires
        f.payload is Data,
        !has_flag(f.header.flags, DATA_END_STREAM),
        recv_transition(s, f) is Ok,
    ensures
        recv_transition(s, f) == Ok::<StreamState, ErrorCode>(s),
{
}

/// Whether a frame ends its stream.
fn frame_ends_stream(frame: &Frame) -> (r: bool)
    ensures
        r == end_of_stream(frame@),
{
    match frame.payload {
        FrameBody::Headers { .. } => contains_flag(frame.header.flags, HEADERS_END_STREAM),
        FrameBody::Data { .. } => contains_flag(frame.header.flags, DATA_END_STREAM),
        _ => false,
    }
}

/// A stream: its state machine, the assembly of its request, and its
/// flow-control window toward the peer.
pub struct Stream {
    pub id: u32,
    pub state: StreamState,
    pub req_assembler: ReqAssembler,
    pub window: Window,
}

/// What receiving a frame gives when the stream's state accepts it: the
/// assembler's error, no request yet, or the assembled request.
pub open spec fn recv_outcome(m: AssemblerModel, f: FrameModel) -> (AssemblerModel, Result<Option<RequestModel>, ErrorCode>) {
    let (m2, r) = assembler_recv(m, f);
    if r is Err {
        (m2, Err(ErrorCode::ProtocolError))
    } else if m2.state == ReqAssemblerState::Done {
        (m2, match assembled(m2) {
            Ok(req) => Ok(Some(req)),
            Err(e) => Err(e),
        })
    } else {
        (m2, Ok(None))
    }
}

/// A stream as a mathematical value.
pub struct StreamModel {
    pub id: u32,
    pub state: StreamState,
    pub assembler: AssemblerModel,
    pub window: WindowModel,
}

impl View for Stream {
    type V = StreamModel;

    open spec fn view(&self) -> StreamModel {
        StreamModel { id: self.id, state: self.state, assembler: self.req_assembler@, window: self.window@ }
    }
}

impl Stream {
    /// The request assembly of the stream.
    pub open spec fn assembler(&self) -> AssemblerModel {
        self.req_assembler@
    }

    /// The flow-control window of the stream.
    pub open spec fn window(&self) -> WindowModel {
        self.window@
    }

    /// A new, idle stream with the given window size.
    pub fn new(id: u32, initial_window_size: u32) -> (s: Stream)
        ensures
            s.id == id,
            s.state == StreamState::Idle,
            s.assembler() == (AssemblerModel {
                hdr_block: Seq::empty(),
                body: Seq::empty(),
                trailer_block: Seq::empty(),
                state: ReqAssemblerState::Init,
            }),
            s.window() == (WindowModel { data_buffer: None, available_size: initial_window_size as int }),
    {
        Stream {
            id,
            state: StreamState::Idle,
            req_assembler: ReqAssembler::new(),
            window: Window::new(initial_window_size as i64),
        }
    }

    /// Where the assembly of the stream's request stands.
    pub fn get_req_assembler_state(&self) -> (s: ReqAssemblerState)
        ensures
            s == self.assembler().state,
    {
        self.req_assembler.get_state()
    }

    /// Receives a frame of this stream: moves the state machine, feeds the
    /// request assembly, and hands out the request once it is complete.
    pub fn recv(&mut self, frame: Frame) -> (r: Result<Option<HTTPRequest>, ErrorCode>)
        ensures
            final(self).id == old(self).id,
            final(self).window() == old(self).window(),
            match recv_transition(old(self).state, frame@) {
                Err(e) => r == Err::<Option<HTTPRequest>, ErrorCode>(e) && final(self).state == old(self).state
                    && final(self).assembler() == old(self).assembler(),
                Ok(next) => {
                    let (m2, out) = recv_outcome(old(self).assembler(), frame@);
                    &&& final(self).state == next
                    &&& final(self).assembler() == m2
                    &&& match (r, out) {
                        (Ok(Some(req)), Ok(Some(q))) => req@ == q,
                        (Ok(None), Ok(None)) => true,
                        (Err(e), Err(f)) => e == f,
                        _ => false,
                    }
                },
            },
    {
        let end_of_stream = frame_ends_stream(&frame);

        // The state machine of section 5.1
        let next_state: StreamState = match self.state {
            StreamState::Idle => match frame.payload {
                FrameBody::PushPromise { .. } => StreamState::ReservedRemote,
                FrameBody::Headers { .. } => if end_of_stream { StreamState::HalfClosedRemote } else { StreamState::Open },
                FrameBody::Priority { .. } => StreamState::Idle,
                _ => return Err(ErrorCode::ProtocolError),
            },
            StreamState::Open => {
                if end_of_stream {
                    StreamState::HalfClosedRemote
                } else {
                    match frame.payload {
                        FrameBody::RstStream { .. } => StreamState::Closed,
                        _ => self.state,
                    }
                }
            },
            StreamState::ReservedRemote => match frame.payload {
                FrameBody::RstStream { .. } => StreamState::Closed,
                FrameBody::Headers { .. } => StreamState::HalfClosedLocal,
                FrameBody::Priority { .. } => StreamState::ReservedRemote,
                _ => return Err(ErrorCode::ProtocolError),
            },
            StreamState::ReservedLocal => match frame.payload {
                FrameBody::RstStream { .. } => StreamState::Closed,
                FrameBody::WindowUpdate { .. } | FrameBody::Priority { .. } => StreamState::ReservedLocal,
                _ => return Err(ErrorCode::ProtocolError),
            },
            StreamState::HalfClosedRemote => match frame.payload {
                FrameBody::RstStream { .. } => StreamState::Closed,
                FrameBody::WindowUpdate { .. } | FrameBody::Priority { .. } => StreamState::HalfClosedRemote,
                _ => return Err(ErrorCode::StreamClosed),
            },
            StreamState::HalfClosedLocal => {
                if end_of_stream {
                    StreamState::Closed
                } else {
                    match frame.payload {
                        FrameBody::RstStream { .. } => StreamState::Closed,
                        _ => self.state,
                    }
                }
            },
            StreamState::Closed => match frame.payload {
                FrameBody::RstStream { .. } | FrameBody::WindowUpdate { .. } | FrameBody::Priority { .. } => StreamState::Closed,
                _ => return Err(ErrorCode::StreamClosed),
            },
        };
        self.state = next_state;

        match self.req_assembler.recv_frame(frame) {
            Ok(()) => {},
            Err(()) => return Err(ErrorCode::ProtocolError),
        }
        if self.req_assembler.get_state() == ReqAssemblerState::Done {
            match self.req_assembler.assemble() {
                Ok(req) => Ok(Some(req)),
                Err(e) => Err(e),
            }
        } else {
            Ok(None)
        }
    }

    /// Moves the state machine for a frame sent on this stream.
    pub fn send(&mut self, frame: &Frame)
        ensures
            final(self).state == send_transition(old(self).state, frame@),
            final(self).id == old(self).id,
            final(self).assembler() == old(self).assembler(),
            final(self).window() == old(self).window(),
    {
        let end_of_stream = frame_ends_stream(frame);

        // The state machine of section 5.1
        let new_state: StreamState = match self.state {
            StreamState::Idle => match frame.payload {
                FrameBody::PushPromise { .. } => StreamState::ReservedLocal,
                FrameBody::Headers { .. } => if end_of_stream { StreamState::HalfClosedLocal } else { StreamState::Open },
                _ => self.state,
            },
            StreamState::Open => {
                if end_of_stream {
                    StreamState::HalfClosedLocal
                } else {
                    match frame.payload {
                        FrameBody::RstStream { .. } => StreamState::Closed,
                        _ => self.state,
                    }
                }
            },
            StreamState::ReservedLocal => match frame.payload {
                FrameBody::Headers { .. } => StreamState::HalfClosedRemote,
                FrameBody::RstStream { .. } => StreamState::Closed,
                _ => self.state,
            },
            StreamState::HalfClosedRemote => {
                if end_of_stream {
                    StreamState::Closed
                } else {
                    match frame.payload {
                        FrameBody::RstStream { .. } => StreamState::Closed,
                        _ => self.state,
                    }
                }
            },
            StreamState::ReservedRemote => match frame.payload {
                FrameBody::RstStream { .. } => StreamState::Closed,
                _ => self.state,
            },
            StreamState::HalfClosedLocal => match frame.payload {
                FrameBody::RstStream { .. } => StreamState::Closed,
                _ => self.state,
            },
            StreamState::Closed => self.state,
        };
        self.state = new_state;
    }

    /// Queues response data on the stream's window; refused while earlier data
    /// is still pending.
    pub fn push_data(&mut self, data: Bytes) -> (r: Result<(), ()>)
        ensures
            final(self).id == old(self).id,
            final(self).state == old(self).state,
            final(self).assembler() == old(self).assembler(),
            old(self).window().data_buffer is Some ==> r is Err && final(self).window() == old(self).window(),
            old(self).window().data_buffer is None ==> r is Ok && final(self).window() == (WindowModel {
                data_buffer: Some(bytes_view(data)),
                available_size: old(self).window().available_size,
            }),
    {
        self.window.push_data(data)
    }

    /// Changes the stream's window by `delta` (see `Window::window_update`).
    pub fn window_update(&mut self, delta: i64) -> (r: Result<bool, ()>)
        requires
            i64::MIN <= old(self).window().available_size + delta <= i64::MAX,
        ensures
            final(self).id == old(self).id,
            final(self).state == old(self).state,
            final(self).assembler() == old(self).assembler(),
            old(self).window().available_size + delta > 2147483647 ==> r is Err && final(self).window() == old(self).window(),
            old(self).window().available_size + delta <= 2147483647 ==> {
                &&& r == Ok::<bool, ()>(old(self).window().data_buffer is None && old(self).window().available_size + delta > 0)
                &&& final(self).window() == (WindowModel {
                    data_buffer: old(self).window().data_buffer,
                    available_size: old(self).window().available_size + delta,
                })
            },
    {
        self.window.window_update(delta)
    }

    /// The current size of the stream's window.
    pub fn window_size(&self) -> (n: i64)
        ensures
            n == self.window().available_size,
    {
        self.window.available_size()
    }

    /// The DATA frames that the window lets go out now (see
    /// `Window::make_data_frames`).
    pub fn get_ready_data_frames(&mut self, max_frame_size: usize) -> (r: Option<Vec<Frame>>)
        requires
            max_frame_size > 0 || old(self).window().available_size <= 0 || old(self).window().data_buffer is None
                || old(self).window().data_buffer.unwrap().len() == 0,
        ensures
            final(self).id == old(self).id,
            final(self).state == old(self).state,
            final(self).assembler() == old(self).assembler(),
            (old(self).window().available_size <= 0 || old(self).window().data_buffer is None) ==> r is None
                && final(self).window() == old(self).window(),
            (old(self).window().available_size > 0 && old(self).window().data_buffer is Some) ==> {
                let buf = old(self).window().data_buffer.unwrap();
                let n = sendable(buf, old(self).window().available_size);
                &&& r matches Some(frames) && frame_models(frames@) == data_frames(buf, n, max_frame_size as nat, old(self).id)
                &&& final(self).window().available_size == old(self).window().available_size - n
                &&& final(self).window().data_buffer == (if n == buf.len() { None } else { Some(buf.skip(n as int)) })
            },
    {
        self.window.make_data_frames(max_frame_size, self.id)
    }
}


// ---------------------------------------------------------------------------
// Header fields come back from compression.

/// Whether header fields come back unchanged from compression: distinct
/// names, single values, every regular field name beginning (in UTF-8) with
/// an octet above `':'`, so that sorting puts the pseudo-headers first, and
/// names and values short enough for HPACK.
pub open spec fn round_trip_ready(es: HeaderEntries) -> bool {
    &&& distinct_names(es)
    &&& forall|i: int| 0 <= i < es.len() ==> (#[trigger] es[i]).1 is Single
    &&& forall|i: int| 0 <= i < es.len() ==> starts_with_colon((#[trigger] es[i]).0)
        || (encode_utf8(es[i].0).len() > 0 && encode_utf8(es[i].0)[0] > 0x3a)
    &&& pairs_fit(header_pairs(es))
}

/// The fields that decoded pairs give when no name repeats.
pub open spec fn decoded_entries(s: Seq<(Seq<u8>, Seq<u8>)>) -> HeaderEntries {
    s.map_values(|p: (Seq<u8>, Seq<u8>)| (decode_utf8(p.0), HeaderValView::Single(decode_utf8(p.1))))
}

/// A pseudo-header's name begins with the octet of `':'`.
proof fn lemma_colon_byte(name: Seq<char>)
    requires
        starts_with_colon(name),
    ensures
        encode_utf8(name).len() > 0,
        encode_utf8(name)[0] == 0x3a,
{
    let c = name[0] as u32;
    assert(c == 0x3a);
    assert((0x3au32 & 0x7F) as u8 == 0x3a) by (bit_vector);
    assert(encode_utf8(name) == encode_scalar(c) + encode_utf8(name.drop_first()));
}

/// Each sorted pair is the pair of some field.
proof fn lemma_sorted_origin(es: HeaderEntries, k: int) -> (j: int)
    requires
        0 <= k < sorted_pairs(es).len(),
    ensures
        0 <= j < es.len(),
        sorted_pairs(es)[k] == header_pairs(es)[j],
{
    let leq = |a: (Seq<u8>, Seq<u8>), b: (Seq<u8>, Seq<u8>)| pair_le(a, b);
    lemma_pair_le_total_ordering();
    header_pairs(es).lemma_sort_by_ensures(leq);
    assert(sorted_pairs(es).contains(sorted_pairs(es)[k]));
    choose|j: int| 0 <= j < header_pairs(es).len() && header_pairs(es)[j] == sorted_pairs(es)[k]
}

/// The sorted pairs of fields ready for it are short enough for HPACK.
proof fn lemma_sorted_pairs_fit(es: HeaderEntries)
    requires
        round_trip_ready(es),
    ensures
        pairs_fit(sorted_pairs(es)),
{
    assert forall|k: int| 0 <= k < sorted_pairs(es).len() implies
        (#[trigger] sorted_pairs(es)[k]).0.len() < 0x1000_0000 && sorted_pairs(es)[k].1.len() < 0x1000_0000 by {
        let j = lemma_sorted_origin(es, k);
        assert(header_pairs(es)[j] == sorted_pairs(es)[k]);
    }
}

/// Gathering decoded pairs with distinct names, pseudo-headers first, gives
/// one single-valued field per pair, in order.
proof fn lemma_gather_distinct(s: Seq<(Seq<u8>, Seq<u8>)>, n: int)
    requires
        0 <= n <= s.len(),
        forall|i: int| 0 <= i < s.len() ==> valid_utf8((#[trigger] s[i]).0) && valid_utf8(s[i].1),
        forall|a: int, b: int| 0 <= a < s.len() && 0 <= b < s.len() && a != b ==>
            decode_utf8((#[trigger] s[a]).0) != decode_utf8((#[trigger] s[b]).0),
        forall|a: int, b: int| 0 <= a < b < s.len() && starts_with_colon(decode_utf8((#[trigger] s[b]).0)) ==>
            starts_with_colon(decode_utf8((#[trigger] s[a]).0)),
    ensures
        gather_headers(s.take(n)) == Ok::<(HeaderEntries, bool), ErrorCode>((decoded_entries(s.take(n)),
            forall|i: int| 0 <= i < n ==> starts_with_colon(decode_utf8((#[trigger] s[i]).0)))),
    decreases n,
{
    if n == 0 {
        assert(s.take(0) =~= Seq::<(Seq<u8>, Seq<u8>)>::empty());
        assert(decoded_entries(s.take(0)) =~= Seq::<(Seq<char>, HeaderValView)>::empty());
    } else {
        lemma_gather_distinct(s, n - 1);
        let t = s.take(n);
        assert(t.drop_last() =~= s.take(n - 1));
        assert(t.last() == s[n - 1]);
        let prev = decoded_entries(s.take(n - 1));
        let pseudo = forall|i: int| 0 <= i < n - 1 ==> starts_with_colon(decode_utf8((#[trigger] s[i]).0));
        let key = decode_utf8(s[n - 1].0);
        let val = decode_utf8(s[n - 1].1);
        assert(valid_utf8(s[n - 1].0) && valid_utf8(s[n - 1].1));
        if !pseudo && starts_with_colon(key) {
            let i = choose|i: int| 0 <= i < n - 1 && !starts_with_colon(decode_utf8((#[trigger] s[i]).0));
            assert(starts_with_colon(decode_utf8(s[n - 1].0)));
            assert(starts_with_colon(decode_utf8(s[i].0)));
        }
        assert(!has_name(prev, key)) by {
            if has_name(prev, key) {
                let i = choose|i: int| 0 <= i < prev.len() && prev[i].0 == key;
                assert(prev[i].0 == decode_utf8(s[i].0));
                assert(s[i] == s.take(n - 1)[i]);
            }
        }
        assert(header_lookup(prev, key) is None);
        assert(decoded_entries(t) =~= prev.push((key, HeaderValView::Single(val))));
        assert((pseudo && starts_with_colon(key)) == (forall|i: int| 0 <= i < n ==> starts_with_colon(decode_utf8((#[trigger] s[i]).0))));
    }
}

/// A block that decodes to the sorted pairs of fields ready for it
/// decompresses to the same fields.
proof fn lemma_round_trip(es: HeaderEntries, block: Seq<u8>)
    requires
        round_trip_ready(es),
        !hpack_bad_size_update(block, 0),
        hpack_decoded(block) == Some(sorted_pairs(es)),
    ensures
        decompressed(block) matches Ok(back) && same_fields(back, es),
{
    broadcast use vstd::utf8::encode_utf8_decode_utf8, vstd::utf8::encode_utf8_valid_utf8;
    let hp = header_pairs(es);
    let s = sorted_pairs(es);
    let leq = |a: (Seq<u8>, Seq<u8>), b: (Seq<u8>, Seq<u8>)| pair_le(a, b);
    lemma_pair_le_total_ordering();
    hp.lemma_sort_by_ensures(leq);
    assert(s == hp.sort_by(leq));
    vstd::seq_lib::to_multiset_len(hp);
    vstd::seq_lib::to_multiset_len(s);
    assert(s.len() == hp.len());
    assert(hp.no_duplicates()) by {
        assert forall|i: int, j: int| 0 <= i < hp.len() && 0 <= j < hp.len() && i != j implies hp[i] != hp[j] by {
            if hp[i] == hp[j] {
                assert(decode_utf8(encode_utf8(es[i].0)) == decode_utf8(encode_utf8(es[j].0)));
            }
        }
    }
    hp.lemma_multiset_has_no_duplicates();
    s.lemma_multiset_has_no_duplicates_conv();
    // Each sorted pair comes from one field.
    assert forall|a: int, b: int| 0 <= a < s.len() && 0 <= b < s.len() && a != b implies
        decode_utf8((#[trigger] s[a]).0) != decode_utf8((#[trigger] s[b]).0) by {
        let ja = lemma_sorted_origin(es, a);
        let jb = lemma_sorted_origin(es, b);
        if decode_utf8(s[a].0) == decode_utf8(s[b].0) {
            assert(es[ja].0 == es[jb].0);
            assert(ja == jb);
            assert(s[a] == s[b]);
        }
    }
    assert forall|i: int| 0 <= i < s.len() implies valid_utf8((#[trigger] s[i]).0) && valid_utf8(s[i].1) by {
        let j = lemma_sorted_origin(es, i);
    }
    assert forall|a: int, b: int| 0 <= a < b < s.len() && starts_with_colon(decode_utf8((#[trigger] s[b]).0)) implies
        starts_with_colon(decode_utf8((#[trigger] s[a]).0)) by {
        let ja = lemma_sorted_origin(es, a);
        let jb = lemma_sorted_origin(es, b);
        assert(decode_utf8(s[b].0) == es[jb].0);
        assert(decode_utf8(s[a].0) == es[ja].0);
        lemma_colon_byte(es[jb].0);
        if !starts_with_colon(es[ja].0) {
            assert(leq(s[a], s[b]));
            assert(es[ja].0 != es[jb].0);
            assert(s[a].0 != s[b].0);
            assert(bytes_le(s[a].0, s[b].0));
            assert(s[a].0[0] > 0x3a);
        }
    }
    lemma_gather_distinct(s, s.len() as int);
    assert(s.take(s.len() as int) =~= s);
    let back = decoded_entries(s);
    assert(same_fields(back, es)) by {
        assert forall|i: int| 0 <= i < back.len() implies header_lookup(es, (#[trigger] back[i]).0) == Some(back[i].1) by {
            let j = lemma_sorted_origin(es, i);
            assert(es[j].1 is Single);
            assert(back[i].0 == es[j].0);
            assert(back[i].1 == es[j].1);
            lemma_lookup_at(es, es[j].0, j);
        }
    }
}

} // verus!
