//! Byte buffers of the `bytes` crate, as the rest of the library sees them.
//!
//! `Bytes` and `BytesMut` are opaque to the verifier; their contents are named
//! by `bytes_view` and `bytes_mut_view`, and every operation the library uses is
//! a small wrapper whose contract says what it does to those contents.

use vstd::prelude::*;
use bytes::{BufMut, Bytes, BytesMut};

verus! {

#[verifier::external_type_specification]
#[verifier::external_body]
pub struct ExBytes(bytes::Bytes);

#[verifier::external_type_specification]
#[verifier::external_body]
pub struct ExBytesMut(bytes::BytesMut);

/// The bytes held by an immutable buffer.
pub uninterp spec fn bytes_view(b: Bytes) -> Seq<u8>;

/// The bytes held by a growable buffer.
pub uninterp spec fn bytes_mut_view(b: BytesMut) -> Seq<u8>;

/// The big-endian encoding of a 16-bit integer.
pub open spec fn be16(x: u16) -> Seq<u8> {
    seq![(x / 0x100) as u8, (x % 0x100) as u8]
}

/// The big-endian encoding of a 32-bit integer.
pub open spec fn be32(x: u32) -> Seq<u8> {
    seq![
        (x / 0x100_0000) as u8,
        ((x / 0x1_0000) % 0x100) as u8,
        ((x / 0x100) % 0x100) as u8,
        (x % 0x100) as u8,
    ]
}

/// `Bytes::new`: an empty buffer.
#[verifier::external_body]
pub(crate) fn bytes_new() -> (b: Bytes)
    ensures
        bytes_view(b) == Seq::<u8>::empty(),
{
    Bytes::new()
}

/// `Bytes::from(Vec<u8>)`: a buffer holding the vector's bytes.
#[verifier::external_body]
pub(crate) fn bytes_from_vec(v: Vec<u8>) -> (b: Bytes)
    ensures
        bytes_view(b) == v@,
{
    Bytes::from(v)
}

/// `Bytes::from(String)`: a buffer holding the UTF-8 encoding of the string.
#[verifier::external_body]
pub(crate) fn bytes_from_string(s: String) -> (b: Bytes)
    ensures
        bytes_view(b) == vstd::utf8::encode_utf8(s@),
{
    Bytes::from(s)
}

/// `Bytes::len`. No Rust object spans more than `isize::MAX` bytes.
#[verifier::external_body]
pub(crate) fn bytes_len(b: &Bytes) -> (n: usize)
    ensures
        n == bytes_view(*b).len(),
        n <= isize::MAX,
{
    b.len()
}

/// `Bytes` dereferenced to a slice: the same bytes.
#[verifier::external_body]
pub(crate) fn bytes_as_slice(b: &Bytes) -> (s: &[u8])
    ensures
        s@ == bytes_view(*b),
{
    b.as_ref()
}

/// `Bytes::slice(start..end)`: the bytes between the two positions.
#[verifier::external_body]
pub(crate) fn bytes_slice(b: &Bytes, start: usize, end: usize) -> (r: Bytes)
    requires
        start <= end <= bytes_view(*b).len(),
    ensures
        bytes_view(r) == bytes_view(*b).subrange(start as int, end as int),
{
    b.slice(start..end)
}

/// `Bytes::split_to(at)`: hands out the first `at` bytes and keeps the rest.
#[verifier::external_body]
pub(crate) fn bytes_split_to(b: &mut Bytes, at: usize) -> (r: Bytes)
    requires
        at <= bytes_view(*old(b)).len(),
    ensures
        bytes_view(r) == bytes_view(*old(b)).take(at as int),
        bytes_view(*final(b)) == bytes_view(*old(b)).skip(at as int),
{
    b.split_to(at)
}

/// `Bytes::clone`: another handle on the same bytes.
#[verifier::external_body]
pub(crate) fn bytes_clone(b: &Bytes) -> (r: Bytes)
    ensures
        bytes_view(r) == bytes_view(*b),
{
    b.clone()
}

/// `BytesMut::new`: an empty growable buffer.
#[verifier::external_body]
pub(crate) fn bytes_mut_new() -> (b: BytesMut)
    ensures
        bytes_mut_view(b) == Seq::<u8>::empty(),
{
    BytesMut::new()
}

/// `BytesMut::with_capacity`: an empty growable buffer (the capacity is not
/// part of the contents).
#[verifier::external_body]
pub(crate) fn bytes_mut_with_capacity(capacity: usize) -> (b: BytesMut)
    ensures
        bytes_mut_view(b) == Seq::<u8>::empty(),
{
    BytesMut::with_capacity(capacity)
}

/// `BytesMut::len`. No Rust object spans more than `isize::MAX` bytes.
#[verifier::external_body]
pub(crate) fn bytes_mut_len(b: &BytesMut) -> (n: usize)
    ensures
        n == bytes_mut_view(*b).len(),
        n <= isize::MAX,
{
    b.len()
}

/// `BytesMut` dereferenced to a slice: the same bytes.
#[verifier::external_body]
pub(crate) fn bytes_mut_as_slice(b: &BytesMut) -> (s: &[u8])
    ensures
        s@ == bytes_mut_view(*b),
{
    b.as_ref()
}

/// `BufMut::put_u8` on `BytesMut`: appends one byte.
#[verifier::external_body]
pub(crate) fn put_u8(b: &mut BytesMut, x: u8)
    requires
        bytes_mut_view(*old(b)).len() + 1 <= usize::MAX,
    ensures
        bytes_mut_view(*final(b)) == bytes_mut_view(*old(b)).push(x),
{
    b.put_u8(x)
}

/// `BufMut::put_u16` on `BytesMut`: appends the big-endian encoding.
#[verifier::external_body]
pub(crate) fn put_u16(b: &mut BytesMut, x: u16)
    requires
        bytes_mut_view(*old(b)).len() + 2 <= usize::MAX,
    ensures
        bytes_mut_view(*final(b)) == bytes_mut_view(*old(b)) + be16(x),
{
    b.put_u16(x)
}

/// `BufMut::put_u32` on `BytesMut`: appends the big-endian encoding.
#[verifier::external_body]
pub(crate) fn put_u32(b: &mut BytesMut, x: u32)
    requires
        bytes_mut_view(*old(b)).len() + 4 <= usize::MAX,
    ensures
        bytes_mut_view(*final(b)) == bytes_mut_view(*old(b)) + be32(x),
{
    b.put_u32(x)
}

/// `BufMut::put_slice` on `BytesMut`: appends the slice.
#[verifier::external_body]
pub(crate) fn put_slice(b: &mut BytesMut, s: &[u8])
    requires
        bytes_mut_view(*old(b)).len() + s@.len() <= usize::MAX,
    ensures
        bytes_mut_view(*final(b)) == bytes_mut_view(*old(b)) + s@,
{
    b.put_slice(s)
}

/// `BufMut::put_bytes(val, count)` on `BytesMut`: appends `count` copies of `val`.
#[verifier::external_body]
pub(crate) fn put_bytes(b: &mut BytesMut, val: u8, count: usize)
    requires
        bytes_mut_view(*old(b)).len() + count <= usize::MAX,
    ensures
        bytes_mut_view(*final(b)) == bytes_mut_view(*old(b)) + Seq::new(count as nat, |i: int| val),
{
    b.put_bytes(val, count)
}

/// `BytesMut::extend_from_slice`: appends the slice.
#[verifier::external_body]
pub(crate) fn extend_from_slice(b: &mut BytesMut, s: &[u8])
    requires
        bytes_mut_view(*old(b)).len() + s@.len() <= usize::MAX,
    ensures
        bytes_mut_view(*final(b)) == bytes_mut_view(*old(b)) + s@,
{
    b.extend_from_slice(s)
}

/// `BytesMut::clone`: a copy of the contents.
#[verifier::external_body]
pub(crate) fn bytes_mut_clone(b: &BytesMut) -> (r: BytesMut)
    ensures
        bytes_mut_view(r) == bytes_mut_view(*b),
{
    b.clone()
}

/// `BytesMut::zeroed`: a buffer of `len` zero bytes.
#[verifier::external_body]
pub(crate) fn bytes_mut_zeroed(len: usize) -> (b: BytesMut)
    ensures
        bytes_mut_view(b) == Seq::new(len as nat, |i: int| 0u8),
{
    BytesMut::zeroed(len)
}

/// `BytesMut::freeze`: the same contents as an immutable buffer.
#[verifier::external_body]
pub(crate) fn freeze(b: BytesMut) -> (r: Bytes)
    ensures
        bytes_view(r) == bytes_mut_view(b),
{
    b.freeze()
}

} // verus!
