//! HTTP/2 frames: header, payloads, error codes, and their wire encoding
//! (RFC 7540 sections 4 and 6).

use vstd::prelude::*;
use bytes::{Bytes, BytesMut};
use crate::buf::{
    be16, be32, bytes_as_slice, bytes_len, bytes_mut_view, bytes_mut_with_capacity, bytes_slice,
    bytes_view, freeze, put_bytes, put_slice, put_u16, put_u32, put_u8,
};
pub use super::settings::{SettingParam, SettingsIdentifier};

pub mod error;

use self::error::{BodyDeserializationError, DeserializationError, HeaderDeserializationError};

verus! {

/// HTTP/2 error codes.
#[derive(Debug, Clone, Copy, PartialEq, Eq, Structural)]
pub enum ErrorCode {
    NoError,
    ProtocolError,
    InternalError,
    FlowControlError,
    SettingsTimeout,
    StreamClosed,
    FrameSizeError,
    RefusedStream,
    Cancel,
    CompressionError,
    ConnectError,
    EnhanceYourCalm,
    InadequateSecurity,
    HTTP1_1Required,
}

impl ErrorCode {
    /// The code's value on the wire.
    pub open spec fn spec_code(self) -> u32 {
        match self {
            ErrorCode::NoError => 0x0,
            ErrorCode::ProtocolError => 0x1,
            ErrorCode::InternalError => 0x2,
            ErrorCode::FlowControlError => 0x3,
            ErrorCode::SettingsTimeout => 0x4,
            ErrorCode::StreamClosed => 0x5,
            ErrorCode::FrameSizeError => 0x6,
            ErrorCode::RefusedStream => 0x7,
            ErrorCode::Cancel => 0x8,
            ErrorCode::CompressionError => 0x9,
            ErrorCode::ConnectError => 0xa,
            ErrorCode::EnhanceYourCalm => 0xb,
            ErrorCode::InadequateSecurity => 0xc,
            ErrorCode::HTTP1_1Required => 0xd,
        }
    }

    /// The error code carried by a wire value, if any.
    pub open spec fn spec_from_code(v: u32) -> Option<ErrorCode> {
        if v == 0x0 { Some(ErrorCode::NoError) }
        else if v == 0x1 { Some(ErrorCode::ProtocolError) }
        else if v == 0x2 { Some(ErrorCode::InternalError) }
        else if v == 0x3 { Some(ErrorCode::FlowControlError) }
        else if v == 0x4 { Some(ErrorCode::SettingsTimeout) }
        else if v == 0x5 { Some(ErrorCode::StreamClosed) }
        else if v == 0x6 { Some(ErrorCode::FrameSizeError) }
        else if v == 0x7 { Some(ErrorCode::RefusedStream) }
        else if v == 0x8 { Some(ErrorCode::Cancel) }
        else if v == 0x9 { Some(ErrorCode::CompressionError) }
        else if v == 0xa { Some(ErrorCode::ConnectError) }
        else if v == 0xb { Some(ErrorCode::EnhanceYourCalm) }
        else if v == 0xc { Some(ErrorCode::InadequateSecurity) }
        else if v == 0xd { Some(ErrorCode::HTTP1_1Required) }
        else { None }
    }

    /// The code's value on the wire.
    #[verifier::when_used_as_spec(spec_code)]
    pub fn code(self) -> (c: u32)
        ensures
            c == self.spec_code(),
    {
        match self {
            ErrorCode::NoError => 0x0,
            ErrorCode::ProtocolError => 0x1,
            ErrorCode::InternalError => 0x2,
            ErrorCode::FlowControlError => 0x3,
            ErrorCode::SettingsTimeout => 0x4,
            ErrorCode::StreamClosed => 0x5,
            ErrorCode::FrameSizeError => 0x6,
            ErrorCode::RefusedStream => 0x7,
            ErrorCode::Cancel => 0x8,
            ErrorCode::CompressionError => 0x9,
            ErrorCode::ConnectError => 0xa,
            ErrorCode::EnhanceYourCalm => 0xb,
            ErrorCode::InadequateSecurity => 0xc,
            ErrorCode::HTTP1_1Required => 0xd,
        }
    }

    /// The error code carried by a wire value; `None` for an unknown value.
    pub fn try_from_code(v: u32) -> (r: Option<ErrorCode>)
        ensures
            r == Self::spec_from_code(v),
    {
        if v == 0x0 { Some(ErrorCode::NoError) }
        else if v == 0x1 { Some(ErrorCode::ProtocolError) }
        else if v == 0x2 { Some(ErrorCode::InternalError) }
        else if v == 0x3 { Some(ErrorCode::FlowControlError) }
        else if v == 0x4 { Some(ErrorCode::SettingsTimeout) }
        else if v == 0x5 { Some(ErrorCode::StreamClosed) }
        else if v == 0x6 { Some(ErrorCode::FrameSizeError) }
        else if v == 0x7 { Some(ErrorCode::RefusedStream) }
        else if v == 0x8 { Some(ErrorCode::Cancel) }
        else if v == 0x9 { Some(ErrorCode::CompressionError) }
        else if v == 0xa { Some(ErrorCode::ConnectError) }
        else if v == 0xb { Some(ErrorCode::EnhanceYourCalm) }
        else if v == 0xc { Some(ErrorCode::InadequateSecurity) }
        else if v == 0xd { Some(ErrorCode::HTTP1_1Required) }
        else { None }
    }
}

/// Decoding a wire value gives back the code that was encoded.
pub proof fn lemma_error_code_roundtrip(c: ErrorCode)
    ensures
        ErrorCode::spec_from_code(c.spec_code()) == Some(c),
{
}


// Flags of each frame type (RFC 7540 section 6).
pub const DATA_END_STREAM: u8 = 0x1;
pub const DATA_PADDED: u8 = 0x8;
pub const HEADERS_END_STREAM: u8 = 0x1;
pub const HEADERS_END_HEADERS: u8 = 0x4;
pub const HEADERS_PADDED: u8 = 0x8;
pub const HEADERS_PRIORITY: u8 = 0x20;
pub const SETTINGS_ACK: u8 = 0x1;
pub const PUSH_PROMISE_END_HEADERS: u8 = 0x4;
pub const PUSH_PROMISE_PADDED: u8 = 0x8;
pub const PING_ACK: u8 = 0x1;
pub const CONTINUATION_END_HEADERS: u8 = 0x4;

/// The size of a frame header on the wire.
pub const FRAME_HDR_SIZE: usize = 9;

/// Whether all bits of `flag` are set in `flags`.
pub open spec fn has_flag(flags: u8, flag: u8) -> bool {
    flags & flag == flag
}

/// Whether all bits of `flag` are set in `flags`.
#[verifier::when_used_as_spec(has_flag)]
pub fn contains_flag(flags: u8, flag: u8) -> (r: bool)
    ensures
        r == has_flag(flags, flag),
{
    flags & flag == flag
}

/// The low 31 bits of a stream identifier (the top bit is reserved).
pub open spec fn stream_bits(x: u32) -> u32 {
    x & 0x7fff_ffff
}

/// A stream dependency with its exclusive bit.
pub open spec fn with_exclusive(e: bool, dep: u32) -> u32 {
    if e { dep | 0x8000_0000 } else { dep }
}

/// `count` zero bytes.
pub open spec fn zeros(count: nat) -> Seq<u8> {
    Seq::new(count, |i: int| 0u8)
}

/// The 32-bit big-endian integer at position `i`.
pub open spec fn be32_at(s: Seq<u8>, i: int) -> u32 {
    (s[i] as int * 0x100_0000 + s[i + 1] as int * 0x1_0000 + s[i + 2] as int * 0x100 + s[i + 3] as int) as u32
}

/// The 16-bit big-endian integer at position `i`.
pub open spec fn be16_at(s: Seq<u8>, i: int) -> u16 {
    (s[i] as int * 0x100 + s[i + 1] as int) as u16
}

/// A frame header (RFC 7540 section 4.1).
#[derive(Clone, Copy, Debug, PartialEq, Eq, Structural)]
pub struct FrameHeader {
    pub length: usize,
    pub frame_type: u8,
    pub flags: u8,
    pub stream_id: u32,
}

/// The priority fields of a HEADERS frame.
#[derive(Clone, Copy, Debug, PartialEq, Eq, Structural)]
pub struct HeadersBodyPriority {
    pub e: bool,
    pub stream_dep: u32,
    pub weight: u8,
}

/// A frame payload (RFC 7540 section 6).
#[derive(Debug)]
pub enum FrameBody {
    Data { pad_length: Option<usize>, data: Bytes },
    Headers { pad_length: Option<usize>, priority: Option<HeadersBodyPriority>, hdr_block_frag: Bytes },
    Priority { e: bool, stream_dep: u32, weight: u8 },
    RstStream { error_code: ErrorCode },
    Settings(Vec<SettingParam>),
    PushPromise { pad_length: Option<usize>, promised_stream_id: u32, hdr_block_frag: Bytes },
    Ping { data: Bytes },
    GoAway { last_stream_id: u32, error_code: ErrorCode, additional_debug_data: Bytes },
    WindowUpdate { window_size_increment: u32 },
    Continuation { hdr_block_frag: Bytes },
}

/// A frame payload as a mathematical value: byte buffers become sequences.
pub enum BodyModel {
    Data { pad_length: Option<usize>, data: Seq<u8> },
    Headers { pad_length: Option<usize>, priority: Option<HeadersBodyPriority>, hdr_block_frag: Seq<u8> },
    Priority { e: bool, stream_dep: u32, weight: u8 },
    RstStream { error_code: ErrorCode },
    Settings(Seq<SettingParam>),
    PushPromise { pad_length: Option<usize>, promised_stream_id: u32, hdr_block_frag: Seq<u8> },
    Ping { data: Seq<u8> },
    GoAway { last_stream_id: u32, error_code: ErrorCode, additional_debug_data: Seq<u8> },
    WindowUpdate { window_size_increment: u32 },
    Continuation { hdr_block_frag: Seq<u8> },
}

impl View for FrameBody {
    type V = BodyModel;

    open spec fn view(&self) -> BodyModel {
        match self {
            FrameBody::Data { pad_length, data } => BodyModel::Data { pad_length: *pad_length, data: bytes_view(*data) },
            FrameBody::Headers { pad_length, priority, hdr_block_frag } =>
                BodyModel::Headers { pad_length: *pad_length, priority: *priority, hdr_block_frag: bytes_view(*hdr_block_frag) },
            FrameBody::Priority { e, stream_dep, weight } => BodyModel::Priority { e: *e, stream_dep: *stream_dep, weight: *weight },
            FrameBody::RstStream { error_code } => BodyModel::RstStream { error_code: *error_code },
            FrameBody::Settings(ps) => BodyModel::Settings(ps@),
            FrameBody::PushPromise { pad_length, promised_stream_id, hdr_block_frag } =>
                BodyModel::PushPromise { pad_length: *pad_length, promised_stream_id: *promised_stream_id, hdr_block_frag: bytes_view(*hdr_block_frag) },
            FrameBody::Ping { data } => BodyModel::Ping { data: bytes_view(*data) },
            FrameBody::GoAway { last_stream_id, error_code, additional_debug_data } =>
                BodyModel::GoAway { last_stream_id: *last_stream_id, error_code: *error_code, additional_debug_data: bytes_view(*additional_debug_data) },
            FrameBody::WindowUpdate { window_size_increment } => BodyModel::WindowUpdate { window_size_increment: *window_size_increment },
            FrameBody::Continuation { hdr_block_frag } => BodyModel::Continuation { hdr_block_frag: bytes_view(*hdr_block_frag) },
        }
    }
}

/// The length that optional padding adds: the pad-length byte and the padding.
pub open spec fn pad_size(pad_length: Option<usize>) -> int {
    match pad_length {
        Some(n) => n + 1,
        None => 0,
    }
}

impl BodyModel {
    /// The frame type of the payload.
    pub open spec fn id(self) -> u8 {
        match self {
            BodyModel::Data { .. } => 0x0,
            BodyModel::Headers { .. } => 0x1,
            BodyModel::Priority { .. } => 0x2,
            BodyModel::RstStream { .. } => 0x3,
            BodyModel::Settings(..) => 0x4,
            BodyModel::PushPromise { .. } => 0x5,
            BodyModel::Ping { .. } => 0x6,
            BodyModel::GoAway { .. } => 0x7,
            BodyModel::WindowUpdate { .. } => 0x8,
            BodyModel::Continuation { .. } => 0x9,
        }
    }

    /// The payload length that the frame header announces.
    pub open spec fn size(self) -> int {
        match self {
            BodyModel::Data { pad_length, data } => data.len() + pad_size(pad_length),
            BodyModel::Headers { pad_length, priority, hdr_block_frag } =>
                pad_size(pad_length) + hdr_block_frag.len() + (if priority is Some { 5int } else { 0int }),
            BodyModel::Priority { .. } => 5,
            BodyModel::RstStream { .. } => 4,
            BodyModel::Settings(ps) => (ps.len() * 6) as int,
            BodyModel::PushPromise { pad_length, hdr_block_frag, .. } => pad_size(pad_length) + 4 + hdr_block_frag.len(),
            BodyModel::Ping { .. } => 8,
            BodyModel::GoAway { additional_debug_data, .. } => 8 + additional_debug_data.len() as int,
            BodyModel::WindowUpdate { .. } => 4,
            BodyModel::Continuation { hdr_block_frag } => hdr_block_frag.len() as int,
        }
    }

    /// Whether serializing the payload is defined: a DATA pad length must fit a byte.
    pub open spec fn serializable(self) -> bool {
        match self {
            BodyModel::Data { pad_length: Some(n), .. } => n <= 255,
            _ => true,
        }
    }
}

/// The encoding of SETTINGS parameters: identifier then value, each big-endian.
pub open spec fn settings_bytes(ps: Seq<SettingParam>) -> Seq<u8>
    decreases ps.len(),
{
    if ps.len() == 0 {
        Seq::empty()
    } else {
        settings_bytes(ps.drop_last()) + be16(ps.last().identifier.spec_code()) + be32(ps.last().value)
    }
}

/// The pad-length byte, present only for a padded payload.
pub open spec fn pad_byte(pad_length: Option<usize>) -> Seq<u8> {
    match pad_length {
        Some(n) => seq![n as u8],
        None => Seq::empty(),
    }
}

/// The padding that ends a padded payload.
pub open spec fn padding(pad_length: Option<usize>) -> Seq<u8> {
    match pad_length {
        Some(n) => zeros(n as nat),
        None => Seq::empty(),
    }
}

/// The encoding of a payload.
pub open spec fn body_bytes(b: BodyModel) -> Seq<u8> {
    match b {
        BodyModel::Data { pad_length, data } => pad_byte(pad_length) + data + padding(pad_length),
        BodyModel::Headers { pad_length, priority, hdr_block_frag } =>
            pad_byte(pad_length) + (match priority {
                Some(p) => be32(with_exclusive(p.e, p.stream_dep)) + seq![p.weight],
                None => Seq::empty(),
            }) + hdr_block_frag + padding(pad_length),
        BodyModel::Priority { e, stream_dep, weight } => be32(with_exclusive(e, stream_dep)) + seq![weight],
        BodyModel::RstStream { error_code } => be32(error_code.spec_code()),
        BodyModel::Settings(ps) => settings_bytes(ps),
        BodyModel::PushPromise { pad_length, promised_stream_id, hdr_block_frag } =>
            pad_byte(pad_length) + be32(stream_bits(promised_stream_id)) + hdr_block_frag + padding(pad_length),
        BodyModel::Ping { data } => data,
        BodyModel::GoAway { last_stream_id, error_code, additional_debug_data } =>
            be32(stream_bits(last_stream_id)) + be32(error_code.spec_code()) + additional_debug_data,
        BodyModel::WindowUpdate { window_size_increment } => be32(stream_bits(window_size_increment)),
        BodyModel::Continuation { hdr_block_frag } => hdr_block_frag,
    }
}

/// The encoding of a frame header: a 24-bit length, type, flags, and a 31-bit
/// stream identifier.
pub open spec fn header_bytes(h: FrameHeader) -> Seq<u8> {
    seq![
        ((h.length / 0x1_0000) % 0x100) as u8,
        ((h.length / 0x100) % 0x100) as u8,
        (h.length % 0x100) as u8,
        h.frame_type,
        h.flags,
    ] + be32(stream_bits(h.stream_id))
}

/// A frame as a mathematical value.
pub struct FrameModel {
    pub header: FrameHeader,
    pub payload: BodyModel,
}

/// The encoding of a frame.
pub open spec fn frame_bytes(f: FrameModel) -> Seq<u8> {
    header_bytes(f.header) + body_bytes(f.payload)
}

/// The result of decoding a frame header from a buffer.
pub open spec fn parse_header(buf: Seq<u8>) -> Result<FrameHeader, HeaderDeserializationError> {
    if buf.len() != 9 {
        Err(HeaderDeserializationError::BufferTooSmall)
    } else if buf[3] > 0x9 {
        Err(HeaderDeserializationError::UnknownFrameType(buf[3]))
    } else {
        Ok(FrameHeader {
            length: (buf[0] as int * 0x1_0000 + buf[1] as int * 0x100 + buf[2] as int) as usize,
            frame_type: buf[3],
            flags: buf[4],
            stream_id: stream_bits(be32_at(buf, 5)),
        })
    }
}

/// The first `n` SETTINGS parameters of a payload, or the first unknown identifier.
pub open spec fn parse_settings(p: Seq<u8>, n: nat) -> Result<Seq<SettingParam>, BodyDeserializationError>
    decreases n,
{
    if n == 0 {
        Ok(Seq::empty())
    } else {
        match parse_settings(p, (n - 1) as nat) {
            Err(e) => Err(e),
            Ok(ps) => {
                let off = 6 * (n - 1);
                let id = be16_at(p, off);
                match SettingsIdentifier::spec_from_code(id) {
                    Some(identifier) => Ok(ps.push(SettingParam { identifier, value: be32_at(p, off + 2) })),
                    None => Err(BodyDeserializationError::UnknownSettingsIdentifier(id)),
                }
            },
        }
    }
}

/// Whether decoding a payload of the given header is defined: every field that
/// the header announces lies within the payload.
pub open spec fn body_parse_defined(p: Seq<u8>, h: FrameHeader) -> bool {
    let len = p.len() as int;
    match h.frame_type {
        0x0 => has_flag(h.flags, DATA_PADDED) ==> (len >= 1 && p[0] as int <= len - 1),
        0x1 => {
            let padded = has_flag(h.flags, HEADERS_PADDED);
            let after_pad = if padded { len - 1 - p[0] as int } else { len };
            &&& padded ==> len >= 1 && after_pad >= 0
            &&& has_flag(h.flags, HEADERS_PRIORITY) ==> after_pad >= 5
        },
        0x2 => len >= 5,
        0x3 => len >= 4,
        0x4 => true,
        0x5 => {
            if has_flag(h.flags, PUSH_PROMISE_PADDED) {
                len >= 1 && len - 4 - 1 - p[0] as int >= 0
            } else {
                len >= 4
            }
        },
        0x6 => len >= 8,
        0x7 => len >= 8,
        0x8 => len >= 4,
        0x9 => true,
        _ => false,
    }
}

/// The result of decoding a payload of the given header.
pub open spec fn parse_body(p: Seq<u8>, h: FrameHeader) -> Result<BodyModel, BodyDeserializationError> {
    let len = p.len() as int;
    match h.frame_type {
        0x0 => if has_flag(h.flags, DATA_PADDED) {
            Ok(BodyModel::Data { pad_length: Some(p[0] as usize), data: p.subrange(1, len - p[0] as int) })
        } else {
            Ok(BodyModel::Data { pad_length: None, data: p })
        },
        0x1 => {
            let padded = has_flag(h.flags, HEADERS_PADDED);
            let start = if padded { 1int } else { 0int };
            let end = if padded { len - p[0] as int } else { len };
            let pad_length = if padded { Some(p[0] as usize) } else { None };
            if has_flag(h.flags, HEADERS_PRIORITY) {
                let x = be32_at(p, start);
                Ok(BodyModel::Headers {
                    pad_length,
                    priority: Some(HeadersBodyPriority { e: x & 0x8000_0000 > 0, stream_dep: stream_bits(x), weight: p[start + 4] }),
                    hdr_block_frag: p.subrange(start + 5, end),
                })
            } else {
                Ok(BodyModel::Headers { pad_length, priority: None, hdr_block_frag: p.subrange(start, end) })
            }
        },
        0x2 => {
            let x = be32_at(p, 0);
            Ok(BodyModel::Priority { e: x & 0x8000_0000 > 0, stream_dep: stream_bits(x), weight: p[4] })
        },
        0x3 => match ErrorCode::spec_from_code(be32_at(p, 0)) {
            Some(error_code) => Ok(BodyModel::RstStream { error_code }),
            None => Err(BodyDeserializationError::UnknownErrorCode(be32_at(p, 0))),
        },
        0x4 => match parse_settings(p, (len / 6) as nat) {
            Ok(ps) => Ok(BodyModel::Settings(ps)),
            Err(e) => Err(e),
        },
        0x5 => {
            let padded = has_flag(h.flags, PUSH_PROMISE_PADDED);
            let start = if padded { 1int } else { 0int };
            let end = if padded { len - p[0] as int } else { len };
            let pad_length = if padded { Some(p[0] as usize) } else { None };
            Ok(BodyModel::PushPromise {
                pad_length,
                promised_stream_id: stream_bits(be32_at(p, start)),
                hdr_block_frag: p.subrange(start + 4, end),
            })
        },
        0x6 => Ok(BodyModel::Ping { data: p.subrange(0, 8) }),
        0x7 => match ErrorCode::spec_from_code(be32_at(p, 4)) {
            Some(error_code) => Ok(BodyModel::GoAway {
                last_stream_id: stream_bits(be32_at(p, 0)),
                error_code,
                additional_debug_data: p.subrange(8, len),
            }),
            None => Err(BodyDeserializationError::UnknownErrorCode(be32_at(p, 4))),
        },
        0x8 => Ok(BodyModel::WindowUpdate { window_size_increment: stream_bits(be32_at(p, 0)) }),
        _ => Ok(BodyModel::Continuation { hdr_block_frag: p }),
    }
}

proof fn lemma_be32_read(a: u8, b: u8, c: u8, d: u8)
    ensures
        ((a as u32) << 24u32) | ((b as u32) << 16u32) | ((c as u32) << 8u32) | (d as u32)
            == (a as int * 0x100_0000 + b as int * 0x1_0000 + c as int * 0x100 + d as int) as u32,
{
    assert(((a as u32) << 24u32) | ((b as u32) << 16u32) | ((c as u32) << 8u32) | (d as u32)
        == (a as u32) * 0x100_0000u32 + (b as u32) * 0x1_0000u32 + (c as u32) * 0x100u32 + (d as u32)) by (bit_vector);
}

/// The big-endian 32-bit integer at position `i`.
fn read_u32(s: &[u8], i: usize) -> (r: u32)
    requires
        i + 4 <= s@.len(),
    ensures
        r == be32_at(s@, i as int),
{
    proof { lemma_be32_read(s@[i as int], s@[i + 1], s@[i + 2], s@[i + 3]); }
    ((s[i] as u32) << 24u32) | ((s[i + 1] as u32) << 16u32) | ((s[i + 2] as u32) << 8u32) | (s[i + 3] as u32)
}

/// The big-endian 16-bit integer at position `i`.
fn read_u16(s: &[u8], i: usize) -> (r: u16)
    requires
        i + 2 <= s@.len(),
    ensures
        r == be16_at(s@, i as int),
{
    let a = s[i];
    let b = s[i + 1];
    assert(((a as u16) << 8u16) | (b as u16) == (a as u16) * 0x100u16 + (b as u16)) by (bit_vector);
    ((a as u16) << 8u16) | (b as u16)
}

impl FrameHeader {
    /// Writes the header's encoding.
    pub fn put_buf(&self, buf: &mut BytesMut)
        requires
            bytes_mut_view(*old(buf)).len() + 9 <= usize::MAX,
        ensures
            bytes_mut_view(*final(buf)) == bytes_mut_view(*old(buf)) + header_bytes(*self),
    {
        let len = self.length;
        let b0 = ((len >> 16) & 0xff) as u8;
        let b1 = ((len >> 8) & 0xff) as u8;
        let b2 = (len & 0xff) as u8;
        assert(b0 == ((len / 0x1_0000) % 0x100) as u8 && b1 == ((len / 0x100) % 0x100) as u8 && b2 == (len % 0x100) as u8) by (bit_vector)
            requires
                b0 == ((len >> 16) & 0xff) as u8,
                b1 == ((len >> 8) & 0xff) as u8,
                b2 == (len & 0xff) as u8;
        put_u8(buf, b0);
        put_u8(buf, b1);
        put_u8(buf, b2);
        put_u8(buf, self.frame_type);
        put_u8(buf, self.flags);
        put_u32(buf, self.stream_id & 0x7fff_ffff);
        assert(bytes_mut_view(*buf) =~= bytes_mut_view(*old(buf)) + header_bytes(*self));
    }

    /// Decodes a header from exactly nine bytes.
    pub fn try_from_bytes(buf: Bytes) -> (r: Result<FrameHeader, HeaderDeserializationError>)
        ensures
            r == parse_header(bytes_view(buf)),
    {
        let s = bytes_as_slice(&buf);
        if s.len() != 9 {
            return Err(HeaderDeserializationError::BufferTooSmall);
        }
        let a = s[0];
        let b = s[1];
        let c = s[2];
        let length: usize = ((a as usize) << 16usize) | ((b as usize) << 8usize) | (c as usize);
        assert(((a as usize) << 16usize) | ((b as usize) << 8usize) | (c as usize)
            == (a as usize) * 0x1_0000usize + (b as usize) * 0x100usize + (c as usize)) by (bit_vector);
        let frame_type = s[3];
        let flags = s[4];
        let stream_id = read_u32(s, 5) & 0x7fff_ffff;
        if frame_type > 0x9 {
            Err(HeaderDeserializationError::UnknownFrameType(frame_type))
        } else {
            Ok(FrameHeader { length, frame_type, flags, stream_id })
        }
    }
}


impl FrameBody {
    /// The frame type of the payload.
    pub fn get_id(&self) -> (id: u8)
        ensures
            id == self@.id(),
    {
        match self {
            FrameBody::Data { .. } => 0x0,
            FrameBody::Headers { .. } => 0x1,
            FrameBody::Priority { .. } => 0x2,
            FrameBody::RstStream { .. } => 0x3,
            FrameBody::Settings(..) => 0x4,
            FrameBody::PushPromise { .. } => 0x5,
            FrameBody::Ping { .. } => 0x6,
            FrameBody::GoAway { .. } => 0x7,
            FrameBody::WindowUpdate { .. } => 0x8,
            FrameBody::Continuation { .. } => 0x9,
        }
    }

    /// The payload length that the frame header announces.
    pub fn size(&self) -> (n: usize)
        requires
            self@.size() <= usize::MAX,
        ensures
            n == self@.size(),
    {
        match self {
            FrameBody::Data { pad_length, data } => {
                let pad = match pad_length {
                    Some(n) => *n + 1,
                    None => 0,
                };
                bytes_len(data) + pad
            },
            FrameBody::Headers { pad_length, priority, hdr_block_frag } => {
                let pad = match pad_length {
                    Some(n) => *n + 1,
                    None => 0,
                };
                let prio: usize = match priority {
                    Some(_) => 5,
                    None => 0,
                };
                pad + bytes_len(hdr_block_frag) + prio
            },
            FrameBody::Priority { .. } => 4 + 1,
            FrameBody::RstStream { .. } => 4,
            FrameBody::Settings(settings) => settings.len() * 6,
            FrameBody::PushPromise { pad_length, hdr_block_frag, .. } => {
                let pad = match pad_length {
                    Some(n) => *n + 1,
                    None => 0,
                };
                pad + 4 + bytes_len(hdr_block_frag)
            },
            FrameBody::Ping { .. } => 8,
            FrameBody::GoAway { additional_debug_data, .. } => 4 + 4 + bytes_len(additional_debug_data),
            FrameBody::WindowUpdate { .. } => 4,
            FrameBody::Continuation { hdr_block_frag } => bytes_len(hdr_block_frag),
        }
    }

    /// Writes the payload's encoding after what the buffer holds: as many
    /// octets as `size()` announces (a PING carrying its eight octets).
    pub fn try_put_buf(&self, buf: &mut BytesMut) -> (r: Result<(), &'static str>)
        requires
            self@.serializable(),
            bytes_mut_view(*old(buf)).len() + body_bytes(self@).len() <= usize::MAX,
        ensures
            r is Ok,
            bytes_mut_view(*final(buf)) == bytes_mut_view(*old(buf)) + body_bytes(self@),
            (self@ matches BodyModel::Ping { data } ==> data.len() == 8) ==>
                bytes_mut_view(*final(buf)).len() == bytes_mut_view(*old(buf)).len() + self@.size(),
    {
        proof {
            if self@ matches BodyModel::Ping { data } ==> data.len() == 8 {
                lemma_body_bytes_len(self@);
            }
        }
        let ghost start = bytes_mut_view(*buf);
        match self {
            FrameBody::Data { pad_length, data } => {
                let pad = match pad_length {
                    Some(pad_length) => {
                        put_u8(buf, *pad_length as u8);
                        *pad_length
                    },
                    None => 0,
                };
                put_slice(buf, bytes_as_slice(data));
                put_bytes(buf, 0, pad);
                assert(bytes_mut_view(*buf) =~= start + body_bytes(self@));
                Ok(())
            },
            FrameBody::Headers { pad_length, priority, hdr_block_frag } => {
                let pad = match pad_length {
                    Some(pad_length) => {
                        put_u8(buf, *pad_length as u8);
                        *pad_length
                    },
                    None => 0,
                };
                match priority {
                    Some(priority) => {
                        put_u32(buf, if priority.e { priority.stream_dep | 0x8000_0000 } else { priority.stream_dep });
                        put_u8(buf, priority.weight);
                    },
                    None => {},
                }
                put_slice(buf, bytes_as_slice(hdr_block_frag));
                put_bytes(buf, 0, pad);
                assert(bytes_mut_view(*buf) =~= start + body_bytes(self@));
                Ok(())
            },
            FrameBody::Priority { e, stream_dep, weight } => {
                put_u32(buf, if *e { *stream_dep | 0x8000_0000 } else { *stream_dep });
                put_u8(buf, *weight);
                assert(bytes_mut_view(*buf) =~= start + body_bytes(self@));
                Ok(())
            },
            FrameBody::RstStream { error_code } => {
                put_u32(buf, error_code.code());
                Ok(())
            },
            FrameBody::Settings(params) => {
                let mut i: usize = 0;
                while i < params.len()
                    invariant
                        0 <= i <= params@.len(),
                        bytes_mut_view(*buf) == start + settings_bytes(params@.take(i as int)),
                        start.len() + settings_bytes(params@).len() <= usize::MAX,
                    decreases params@.len() - i,
                {
                    assert(params@.take(i + 1).drop_last() =~= params@.take(i as int));
                    proof { lemma_settings_bytes_prefix(params@, i as int + 1); }
                    let param = params[i];
                    put_u16(buf, param.identifier.code());
                    put_u32(buf, param.value);
                    i = i + 1;
                    assert(bytes_mut_view(*buf) =~= start + settings_bytes(params@.take(i as int)));
                }
                assert(params@.take(i as int) =~= params@);
                Ok(())
            },
            FrameBody::PushPromise { pad_length, promised_stream_id, hdr_block_frag } => {
                let pad = match pad_length {
                    Some(pad_length) => {
                        put_u8(buf, *pad_length as u8);
                        *pad_length
                    },
                    None => 0,
                };
                put_u32(buf, *promised_stream_id & 0x7fff_ffff);
                put_slice(buf, bytes_as_slice(hdr_block_frag));
                put_bytes(buf, 0, pad);
                assert(bytes_mut_view(*buf) =~= start + body_bytes(self@));
                Ok(())
            },
            FrameBody::Ping { data } => {
                put_slice(buf, bytes_as_slice(data));
                Ok(())
            },
            FrameBody::GoAway { last_stream_id, error_code, additional_debug_data } => {
                put_u32(buf, *last_stream_id & 0x7fff_ffff);
                put_u32(buf, error_code.code());
                put_slice(buf, bytes_as_slice(additional_debug_data));
                assert(bytes_mut_view(*buf) =~= start + body_bytes(self@));
                Ok(())
            },
            FrameBody::WindowUpdate { window_size_increment } => {
                put_u32(buf, *window_size_increment & 0x7fff_ffff);
                Ok(())
            },
            FrameBody::Continuation { hdr_block_frag } => {
                put_slice(buf, bytes_as_slice(hdr_block_frag));
                Ok(())
            },
        }
    }

    /// Whether decoding a payload of the given header is defined (see
    /// `body_parse_defined`); a reader checks this before `try_from_buf`.
    pub fn can_parse(buf: &Bytes, hdr: &FrameHeader) -> (r: bool)
        ensures
            r == body_parse_defined(bytes_view(*buf), *hdr),
    {
        let s = bytes_as_slice(buf);
        let len = s.len();
        let flags = hdr.flags;
        match hdr.frame_type {
            0x0 => !contains_flag(flags, DATA_PADDED) || (len >= 1 && (s[0] as usize) <= len - 1),
            0x1 => {
                let padded = contains_flag(flags, HEADERS_PADDED);
                if padded && (len < 1 || (s[0] as usize) + 1 > len) {
                    return false;
                }
                let after_pad = if padded { len - 1 - s[0] as usize } else { len };
                !contains_flag(flags, HEADERS_PRIORITY) || after_pad >= 5
            },
            0x2 => len >= 5,
            0x3 => len >= 4,
            0x4 => true,
            0x5 => {
                if contains_flag(flags, PUSH_PROMISE_PADDED) {
                    len >= 1 && len >= 4 + 1 + s[0] as usize
                } else {
                    len >= 4
                }
            },
            0x6 => len >= 8,
            0x7 => len >= 8,
            0x8 => len >= 4,
            0x9 => true,
            _ => false,
        }
    }

    /// Decodes the payload of a frame with the given header.
    pub fn try_from_buf(buf: Bytes, hdr: &FrameHeader) -> (r: Result<FrameBody, BodyDeserializationError>)
        requires
            bytes_view(buf).len() == hdr.length,
            body_parse_defined(bytes_view(buf), *hdr),
        ensures
            r matches Ok(b) ==> parse_body(bytes_view(buf), *hdr) == Ok::<BodyModel, BodyDeserializationError>(b@),
            r matches Err(e) ==> parse_body(bytes_view(buf), *hdr) == Err::<BodyModel, BodyDeserializationError>(e),
    {
        let ghost p = bytes_view(buf);
        let s = bytes_as_slice(&buf);
        let len = s.len();
        let flags = hdr.flags;
        match hdr.frame_type {
            0x0 => {
                if contains_flag(flags, DATA_PADDED) {
                    let pad_length = s[0] as usize;
                    let data_length = len - 1 - pad_length;
                    let data = bytes_slice(&buf, 1, 1 + data_length);
                    Ok(FrameBody::Data { pad_length: Some(pad_length), data })
                } else {
                    let data = bytes_slice(&buf, 0, len);
                    assert(p.subrange(0, len as int) =~= p);
                    Ok(FrameBody::Data { pad_length: None, data })
                }
            },
            0x1 => {
                let mut start: usize = 0;
                let mut hdr_block_frag_len: usize = len;
                let pad_length = if contains_flag(flags, HEADERS_PADDED) {
                    let pad_length = s[0] as usize;
                    hdr_block_frag_len = hdr_block_frag_len - (1 + pad_length);
                    start = 1;
                    Some(pad_length)
                } else {
                    None
                };
                let priority = if contains_flag(flags, HEADERS_PRIORITY) {
                    let stream_dep_with_e = read_u32(s, start);
                    let weight = s[start + 4];
                    hdr_block_frag_len = hdr_block_frag_len - 5;
                    start = start + 5;
                    Some(HeadersBodyPriority {
                        e: (stream_dep_with_e & 0x8000_0000) > 0,
                        stream_dep: stream_dep_with_e & 0x7fff_ffff,
                        weight,
                    })
                } else {
                    None
                };
                let hdr_block_frag = bytes_slice(&buf, start, start + hdr_block_frag_len);
                proof {
                    if pad_length is None && priority is None {
                        assert(p.subrange(0, len as int) =~= p);
                    }
                }
                Ok(FrameBody::Headers { pad_length, priority, hdr_block_frag })
            },
            0x2 => {
                let stream_dep = read_u32(s, 0);
                let e: bool = (stream_dep & 0x8000_0000) > 0;
                let weight = s[4];
                Ok(FrameBody::Priority { e, stream_dep: stream_dep & 0x7fff_ffff, weight })
            },
            0x3 => {
                let error_code = read_u32(s, 0);
                match ErrorCode::try_from_code(error_code) {
                    Some(error_code) => Ok(FrameBody::RstStream { error_code }),
                    None => Err(BodyDeserializationError::UnknownErrorCode(error_code)),
                }
            },
            0x4 => {
                let mut remaining_size: usize = len;
                let mut off: usize = 0;
                let mut setting_params: Vec<SettingParam> = Vec::new();
                while remaining_size >= 6
                    invariant
                        len == p.len(),
                        s@ == p,
                        hdr.frame_type == 4,
                        p == bytes_view(buf),
                        off + remaining_size == len,
                        off % 6 == 0,
                        parse_settings(p, (off / 6) as nat) == Ok::<Seq<SettingParam>, BodyDeserializationError>(setting_params@),
                    decreases remaining_size,
                {
                    let identifier = read_u16(s, off);
                    let value = read_u32(s, off + 2);
                    assert((off + 6) / 6 == off / 6 + 1 && 6 * ((off + 6) / 6 - 1) == off) by (nonlinear_arith)
                        requires off % 6 == 0;
                    match SettingsIdentifier::try_from_code(identifier) {
                        Some(identifier) => {
                            setting_params.push(SettingParam { identifier, value });
                        },
                        None => {
                            proof {
                                let n = ((off + 6) / 6) as nat;
                                assert(parse_settings(p, n) == Err::<Seq<SettingParam>, BodyDeserializationError>(
                                    BodyDeserializationError::UnknownSettingsIdentifier(identifier)));
                                assert(n <= len / 6) by (nonlinear_arith)
                                    requires n == (off + 6) / 6, off + 6 <= len;
                                lemma_parse_settings_err(p, n, (len / 6) as nat);
                                assert(parse_settings(p, (p.len() as int / 6) as nat) == parse_settings(p, n));
                                assert(parse_body(p, *hdr) == Err::<BodyModel, BodyDeserializationError>(
                                    BodyDeserializationError::UnknownSettingsIdentifier(identifier)));
                            }
                            return Err(BodyDeserializationError::UnknownSettingsIdentifier(identifier));
                        },
                    }
                    remaining_size = remaining_size - 6;
                    off = off + 6;
                }
                assert(off / 6 == len / 6) by (nonlinear_arith)
                    requires off % 6 == 0, off + remaining_size == len, remaining_size < 6;
                Ok(FrameBody::Settings(setting_params))
            },
            0x5 => {
                let mut start: usize = 0;
                let mut hdr_block_frag_len: usize = len - 4;
                let pad_length = if contains_flag(flags, PUSH_PROMISE_PADDED) {
                    let pad_length = s[0] as usize;
                    hdr_block_frag_len = hdr_block_frag_len - (1 + pad_length);
                    start = 1;
                    Some(pad_length)
                } else {
                    None
                };
                let promised_stream_id = read_u32(s, start) & 0x7fff_ffff;
                let hdr_block_frag = bytes_slice(&buf, start + 4, start + 4 + hdr_block_frag_len);
                Ok(FrameBody::PushPromise { pad_length, promised_stream_id, hdr_block_frag })
            },
            0x6 => {
                let data = bytes_slice(&buf, 0, 8);
                Ok(FrameBody::Ping { data })
            },
            0x7 => {
                let last_stream_id = read_u32(s, 0) & 0x7fff_ffff;
                let error_code = read_u32(s, 4);
                match ErrorCode::try_from_code(error_code) {
                    Some(error_code) => {
                        let additional_debug_data = bytes_slice(&buf, 8, len);
                        Ok(FrameBody::GoAway { last_stream_id, error_code, additional_debug_data })
                    },
                    None => Err(BodyDeserializationError::UnknownErrorCode(error_code)),
                }
            },
            0x8 => {
                let window_size_increment = read_u32(s, 0) & 0x7fff_ffff;
                Ok(FrameBody::WindowUpdate { window_size_increment })
            },
            _ => {
                let hdr_block_frag = bytes_slice(&buf, 0, len);
                assert(p.subrange(0, len as int) =~= p);
                Ok(FrameBody::Continuation { hdr_block_frag })
            },
        }
    }
}

/// The encoding of the first `i` parameters is a prefix of the whole encoding.
proof fn lemma_settings_bytes_prefix(ps: Seq<SettingParam>, i: int)
    requires
        0 <= i <= ps.len(),
    ensures
        settings_bytes(ps.take(i)).len() <= settings_bytes(ps).len(),
        settings_bytes(ps.take(i)).len() == 6 * i,
    decreases ps.len() - i,
{
    lemma_settings_bytes_len(ps.take(i));
    lemma_settings_bytes_len(ps);
    assert(ps.take(i).len() == i);
    assert(6 * i <= 6 * ps.len()) by (nonlinear_arith) requires i <= ps.len();
}

/// Each SETTINGS parameter takes six bytes.
pub proof fn lemma_settings_bytes_len(ps: Seq<SettingParam>)
    ensures
        settings_bytes(ps).len() == 6 * ps.len(),
    decreases ps.len(),
{
    if ps.len() > 0 {
        lemma_settings_bytes_len(ps.drop_last());
    }
}

/// Once a SETTINGS parameter has an unknown identifier, decoding more of them
/// keeps that error.
proof fn lemma_parse_settings_err(p: Seq<u8>, n: nat, m: nat)
    requires
        n <= m,
        parse_settings(p, n) is Err,
    ensures
        parse_settings(p, m) == parse_settings(p, n),
    decreases m - n,
{
    if n < m {
        lemma_parse_settings_err(p, n, (m - 1) as nat);
    }
}

/// A frame: header and payload.
#[derive(Debug)]
pub struct Frame {
    pub header: FrameHeader,
    pub payload: FrameBody,
}

impl View for Frame {
    type V = FrameModel;

    open spec fn view(&self) -> FrameModel {
        FrameModel { header: self.header, payload: self.payload@ }
    }
}

/// The header that `Frame::new` gives a payload.
pub open spec fn header_for(stream_id: u32, flags: u8, payload: BodyModel) -> FrameHeader {
    FrameHeader { length: payload.size() as usize, frame_type: payload.id(), flags, stream_id }
}

/// A payload's encoding is exactly as long as the size its header announces
/// (a PING carrying its eight octets): serializing writes `size()` octets.
pub proof fn lemma_body_bytes_len(b: BodyModel)
    requires
        b matches BodyModel::Ping { data } ==> data.len() == 8,
    ensures
        body_bytes(b).len() == b.size(),
{
    match b {
        BodyModel::Settings(ps) => lemma_settings_bytes_len(ps),
        _ => {},
    }
}

/// A frame built by `Frame::new` agrees with its header: the header announces
/// the payload's size and type, so `is_valid` holds of it.
pub proof fn lemma_new_frame_valid(stream_id: u32, flags: u8, payload: BodyModel)
    requires
        payload.size() <= usize::MAX,
    ensures
        header_for(stream_id, flags, payload).length == payload.size(),
        header_for(stream_id, flags, payload).frame_type == payload.id(),
        header_for(stream_id, flags, payload).stream_id == stream_id,
        header_for(stream_id, flags, payload).flags == flags,
{
}

impl Frame {
    /// A frame whose header announces the payload's size and type.
    pub fn new(stream_id: u32, flags: u8, payload: FrameBody) -> (f: Frame)
        requires
            payload@.size() <= usize::MAX,
        ensures
            f@ == (FrameModel { header: header_for(stream_id, flags, payload@), payload: payload@ }),
    {
        let body_size = payload.size();
        Frame {
            header: FrameHeader { length: body_size, frame_type: payload.get_id(), flags, stream_id },
            payload,
        }
    }

    /// A frame must agree with its header before it is serialized and sent.
    pub fn is_valid(&self) -> (r: Result<(), &'static str>)
        requires
            self.payload@.size() <= usize::MAX,
        ensures
            r is Ok <==> self.payload@.size() == self.header.length,
    {
        let payload_len = self.payload.size();
        if payload_len != self.header.length {
            return Err("Incorrect FrameHeader.length");
        }
        Ok(())
    }

    /// Decodes a frame from its header and a payload of the announced length.
    pub fn try_from_parts(header: FrameHeader, payload: Bytes) -> (r: Result<Frame, DeserializationError>)
        requires
            bytes_view(payload).len() == header.length,
            body_parse_defined(bytes_view(payload), header),
        ensures
            match (r, parse_body(bytes_view(payload), header)) {
                (Ok(f), Ok(b)) => f@ == (FrameModel { header, payload: b }),
                (Err(e), Err(be)) => e == DeserializationError::Body(be),
                _ => false,
            },
    {
        match FrameBody::try_from_buf(payload, &header) {
            Ok(body) => Ok(Frame { header, payload: body }),
            Err(err) => Err(DeserializationError::Body(err)),
        }
    }

    /// The frame's encoding.
    pub fn try_into_bytes(self) -> (r: Result<Bytes, &'static str>)
        requires
            self.payload@.serializable(),
            FRAME_HDR_SIZE + self.header.length <= usize::MAX,
            FRAME_HDR_SIZE + body_bytes(self.payload@).len() <= usize::MAX,
        ensures
            r matches Ok(b) && bytes_view(b) == frame_bytes(self@),
    {
        let mut buf = bytes_mut_with_capacity(FRAME_HDR_SIZE + self.header.length);
        self.header.put_buf(&mut buf);
        let r = self.payload.try_put_buf(&mut buf);
        match r {
            Ok(()) => Ok(freeze(buf)),
            Err(e) => Err(e),
        }
    }
}


/// Whether a frame travels over the wire unchanged: its header agrees with the
/// payload, every field fits its encoding, and the flags announce exactly the
/// optional fields that the payload carries.
pub open spec fn wire_representable(f: FrameModel) -> bool {
    let flags = f.header.flags;
    &&& f.header.length == f.payload.size()
    &&& f.header.frame_type == f.payload.id()
    &&& f.header.length < 0x100_0000
    &&& f.header.stream_id < 0x8000_0000
    &&& match f.payload {
        BodyModel::Data { pad_length, .. } =>
            (has_flag(flags, DATA_PADDED) <==> pad_length is Some)
            && (pad_length matches Some(n) ==> n <= 255),
        BodyModel::Headers { pad_length, priority, .. } =>
            (has_flag(flags, HEADERS_PADDED) <==> pad_length is Some)
            && (pad_length matches Some(n) ==> n <= 255)
            && (has_flag(flags, HEADERS_PRIORITY) <==> priority is Some)
            && (priority matches Some(p) ==> p.stream_dep < 0x8000_0000),
        BodyModel::Priority { stream_dep, .. } => stream_dep < 0x8000_0000,
        BodyModel::PushPromise { pad_length, promised_stream_id, .. } =>
            (has_flag(flags, PUSH_PROMISE_PADDED) <==> pad_length is Some)
            && (pad_length matches Some(n) ==> n <= 255)
            && promised_stream_id < 0x8000_0000,
        BodyModel::Ping { data } => data.len() == 8,
        BodyModel::GoAway { last_stream_id, .. } => last_stream_id < 0x8000_0000,
        BodyModel::WindowUpdate { window_size_increment } => window_size_increment < 0x8000_0000,
        _ => true,
    }
}

proof fn lemma_be32_at(s: Seq<u8>, i: int, x: u32)
    requires
        0 <= i,
        i + 4 <= s.len(),
        s.subrange(i, i + 4) == be32(x),
    ensures
        be32_at(s, i) == x,
{
    assert(s[i] == be32(x)[0]);
    assert(s[i + 1] == be32(x)[1]);
    assert(s[i + 2] == be32(x)[2]);
    assert(s[i + 3] == be32(x)[3]);
    assert(((x / 0x100_0000) as u8) as u32 * 0x100_0000 + (((x / 0x1_0000) % 0x100) as u8) as u32 * 0x1_0000
        + (((x / 0x100) % 0x100) as u8) as u32 * 0x100 + ((x % 0x100) as u8) as u32 == x) by (bit_vector);
}

proof fn lemma_be16_at(s: Seq<u8>, i: int, x: u16)
    requires
        0 <= i,
        i + 2 <= s.len(),
        s.subrange(i, i + 2) == be16(x),
    ensures
        be16_at(s, i) == x,
{
    assert(s[i] == be16(x)[0]);
    assert(s[i + 1] == be16(x)[1]);
    assert(((x / 0x100) as u8) as u16 * 0x100 + ((x % 0x100) as u8) as u16 == x) by (bit_vector);
}

proof fn lemma_stream_bits_small(x: u32)
    requires
        x < 0x8000_0000,
    ensures
        stream_bits(x) == x,
        with_exclusive(true, x) & 0x8000_0000 > 0,
        with_exclusive(false, x) & 0x8000_0000 == 0,
        stream_bits(with_exclusive(true, x)) == x,
        stream_bits(with_exclusive(false, x)) == x,
{
    assert(x < 0x8000_0000 ==> x & 0x7fff_ffff == x) by (bit_vector);
    assert(x < 0x8000_0000 ==> (x | 0x8000_0000) & 0x8000_0000 > 0) by (bit_vector);
    assert(x < 0x8000_0000 ==> x & 0x8000_0000 == 0) by (bit_vector);
    assert(x < 0x8000_0000 ==> (x | 0x8000_0000) & 0x7fff_ffff == x) by (bit_vector);
}

/// Byte `6k + j` of the SETTINGS encoding is byte `j` of parameter `k`'s encoding.
proof fn lemma_settings_bytes_at(ps: Seq<SettingParam>, k: int)
    requires
        0 <= k < ps.len(),
    ensures
        settings_bytes(ps).len() == 6 * ps.len(),
        settings_bytes(ps).subrange(6 * k, 6 * k + 2) == be16(ps[k].identifier.spec_code()),
        settings_bytes(ps).subrange(6 * k + 2, 6 * k + 6) == be32(ps[k].value),
    decreases ps.len(),
{
    lemma_settings_bytes_len(ps);
    let prev = ps.drop_last();
    lemma_settings_bytes_len(prev);
    let b = settings_bytes(ps);
    assert(b == settings_bytes(prev) + be16(ps.last().identifier.spec_code()) + be32(ps.last().value));
    if k == ps.len() - 1 {
        assert(b.subrange(6 * k, 6 * k + 2) =~= be16(ps[k].identifier.spec_code()));
        assert(b.subrange(6 * k + 2, 6 * k + 6) =~= be32(ps[k].value));
    } else {
        lemma_settings_bytes_at(prev, k);
        assert(6 * k + 6 <= 6 * prev.len()) by (nonlinear_arith) requires k < prev.len();
        assert(b.subrange(6 * k, 6 * k + 2) =~= settings_bytes(prev).subrange(6 * k, 6 * k + 2));
        assert(b.subrange(6 * k + 2, 6 * k + 6) =~= settings_bytes(prev).subrange(6 * k + 2, 6 * k + 6));
    }
}

proof fn lemma_settings_code_roundtrip(id: SettingsIdentifier)
    ensures
        SettingsIdentifier::spec_from_code(id.spec_code()) == Some(id),
{
}

/// Decoding the first `n` parameters of a SETTINGS encoding gives them back.
proof fn lemma_parse_settings_roundtrip(ps: Seq<SettingParam>, n: nat)
    requires
        n <= ps.len(),
    ensures
        parse_settings(settings_bytes(ps), n) == Ok::<Seq<SettingParam>, BodyDeserializationError>(ps.take(n as int)),
    decreases n,
{
    if n == 0 {
        assert(ps.take(0) =~= Seq::<SettingParam>::empty());
    } else {
        lemma_parse_settings_roundtrip(ps, (n - 1) as nat);
        let k = n - 1;
        lemma_settings_bytes_at(ps, k);
        let b = settings_bytes(ps);
        assert(6 * k + 6 <= b.len()) by (nonlinear_arith) requires k < ps.len(), b.len() == 6 * ps.len();
        lemma_be16_at(b, 6 * k, ps[k].identifier.spec_code());
        lemma_be32_at(b, 6 * k + 2, ps[k].value);
        lemma_settings_code_roundtrip(ps[k].identifier);
        assert(be16_at(b, 6 * (n - 1)) == ps[k].identifier.spec_code());
        assert(be32_at(b, 6 * (n - 1) + 2) == ps[k].value);
        assert(ps.take(k).push(ps[k]) =~= ps.take(n as int));
    }
}

/// The 31-bit stream number and the top bit of the big-endian word of four
/// octets.
proof fn lemma_word_bits(a: u8, b: u8, c: u8, d: u8)
    ensures
        ((a as int * 0x100_0000 + b as int * 0x1_0000 + c as int * 0x100 + d as int) as u32) & 0x8000_0000 > 0
            <==> a >= 0x80,
        stream_bits((a as int * 0x100_0000 + b as int * 0x1_0000 + c as int * 0x100 + d as int) as u32)
            == ((a % 0x80) as int * 0x100_0000 + b as int * 0x1_0000 + c as int * 0x100 + d as int),
{
    lemma_be32_read(a, b, c, d);
    lemma_be32_read(a % 0x80, b, c, d);
    assert((((a as u32) << 24u32) | ((b as u32) << 16u32) | ((c as u32) << 8u32) | (d as u32)) & 0x8000_0000 > 0
        <==> a >= 0x80) by (bit_vector);
    assert((((a as u32) << 24u32) | ((b as u32) << 16u32) | ((c as u32) << 8u32) | (d as u32)) & 0x7fff_ffff
        == ((((a % 0x80) as u8) as u32) << 24u32) | ((b as u32) << 16u32) | ((c as u32) << 8u32) | (d as u32)) by (bit_vector);
    assert(((a % 0x80) as int * 0x100_0000 + b as int * 0x1_0000 + c as int * 0x100 + d as int) < 0x1_0000_0000);
}

/// The first octet of the word that carries a stream dependency: its top bit
/// is the exclusive flag, the rest the top of the dependency.
proof fn lemma_dependency_first_octet(e: bool, dep: u32)
    requires
        dep < 0x8000_0000,
    ensures
        be32(with_exclusive(e, dep))[0] >= 0x80 <==> e,
        be32(with_exclusive(e, dep))[0] % 0x80 == dep / 0x100_0000,
{
    assert(dep < 0x8000_0000 ==> ((dep | 0x8000_0000) / 0x100_0000) as u8 >= 0x80) by (bit_vector);
    assert(dep < 0x8000_0000 ==> ((dep / 0x100_0000) as u8) < 0x80) by (bit_vector);
    assert(dep < 0x8000_0000 ==> ((dep | 0x8000_0000) / 0x100_0000) as u8 % 0x80 == dep / 0x100_0000) by (bit_vector);
    assert(dep < 0x8000_0000 ==> ((dep / 0x100_0000) as u8) % 0x80 == dep / 0x100_0000) by (bit_vector);
}

/// On the wire, the exclusive flag of a stream dependency is the top bit of
/// its first octet and the dependency the remaining 31 bits, big-endian: a
/// HEADERS payload with the PRIORITY flag, and a PRIORITY payload, decode that
/// way, the weight being the octet after the dependency.
pub proof fn lemma_dependency_decoded_from_wire(p: Seq<u8>, h: FrameHeader)
    requires
        h.frame_type == 0x1 && has_flag(h.flags, HEADERS_PRIORITY) || h.frame_type == 0x2,
        body_parse_defined(p, h),
    ensures
        ({
            let start = if h.frame_type == 0x1 && has_flag(h.flags, HEADERS_PADDED) { 1int } else { 0int };
            let (e, dep, w) = match parse_body(p, h) {
                Ok(BodyModel::Headers { priority: Some(pr), .. }) => (pr.e, pr.stream_dep, pr.weight),
                Ok(BodyModel::Priority { e, stream_dep, weight }) => (e, stream_dep, weight),
                _ => (false, 0xffff_ffffu32, 0u8),
            };
            &&& e == (p[start] >= 0x80)
            &&& dep as int == (p[start] % 0x80) as int * 0x100_0000 + p[start + 1] as int * 0x1_0000
                + p[start + 2] as int * 0x100 + p[start + 3] as int
            &&& w == p[start + 4]
        }),
{
    let start = if h.frame_type == 0x1 && has_flag(h.flags, HEADERS_PADDED) { 1int } else { 0int };
    lemma_word_bits(p[start], p[start + 1], p[start + 2], p[start + 3]);
}

/// The encoding of a stream dependency sets the top bit of its first octet
/// exactly for an exclusive dependency, the other bits of that octet being
/// the top of the dependency: in a HEADERS payload with a priority (after the
/// pad-length octet, if any) and in a PRIORITY payload.
pub proof fn lemma_dependency_written_to_wire(b: BodyModel)
    requires
        b matches BodyModel::Headers { priority: Some(pr), .. } ==> pr.stream_dep < 0x8000_0000,
        b matches BodyModel::Priority { stream_dep, .. } ==> stream_dep < 0x8000_0000,
    ensures
        b matches BodyModel::Headers { pad_length, priority: Some(pr), .. } ==> ({
            let off = if pad_length is Some { 1int } else { 0int };
            &&& body_bytes(b)[off] >= 0x80 <==> pr.e
            &&& body_bytes(b)[off] % 0x80 == pr.stream_dep / 0x100_0000
            &&& body_bytes(b)[off + 4] == pr.weight
        }),
        b matches BodyModel::Priority { e, stream_dep, weight } ==> ({
            &&& body_bytes(b)[0] >= 0x80 <==> e
            &&& body_bytes(b)[0] % 0x80 == stream_dep / 0x100_0000
            &&& body_bytes(b)[4] == weight
        }),
{
    match b {
        BodyModel::Headers { pad_length, priority: Some(pr), hdr_block_frag } => {
            lemma_dependency_first_octet(pr.e, pr.stream_dep);
            let off = if pad_length is Some { 1int } else { 0int };
            let w = be32(with_exclusive(pr.e, pr.stream_dep)) + seq![pr.weight];
            assert(body_bytes(b) == pad_byte(pad_length) + w + hdr_block_frag + padding(pad_length));
            assert(pad_byte(pad_length).len() == off);
            assert(body_bytes(b)[off] == w[0]);
            assert(body_bytes(b)[off + 4] == w[4]);
        },
        BodyModel::Priority { e, stream_dep, weight } => {
            lemma_dependency_first_octet(e, stream_dep);
        },
        _ => {},
    }
}

/// The frame header on the wire (RFC 7540 section 4.1): a 24-bit big-endian
/// length, the type, the flags, then the stream identifier in 31 bits,
/// big-endian, after a reserved bit that decoding ignores.
pub proof fn lemma_header_decoded_from_wire(b: Seq<u8>)
    requires
        b.len() == 9,
        b[3] <= 0x9,
    ensures
        parse_header(b) matches Ok(h) && h.length == b[0] as int * 0x1_0000 + b[1] as int * 0x100 + b[2] as int
            && h.frame_type == b[3] && h.flags == b[4]
            && h.stream_id as int == (b[5] % 0x80) as int * 0x100_0000 + b[6] as int * 0x1_0000 + b[7] as int * 0x100 + b[8] as int,
{
    lemma_word_bits(b[5], b[6], b[7], b[8]);
}

/// Encoding a frame header writes the length in three octets, big-endian,
/// then the type and the flags, then the stream identifier in four octets,
/// big-endian, with the reserved bit clear.
pub proof fn lemma_header_written_to_wire(h: FrameHeader)
    requires
        h.length < 0x100_0000,
        h.stream_id < 0x8000_0000,
    ensures
        ({
            let b = header_bytes(h);
            &&& b.len() == 9
            &&& b[0] as int * 0x1_0000 + b[1] as int * 0x100 + b[2] as int == h.length
            &&& b[3] == h.frame_type
            &&& b[4] == h.flags
            &&& b[5] < 0x80
            &&& b[5] as int * 0x100_0000 + b[6] as int * 0x1_0000 + b[7] as int * 0x100 + b[8] as int == h.stream_id
        }),
{
    let b = header_bytes(h);
    let len = h.length;
    let x = h.stream_id;
    lemma_stream_bits_small(x);
    assert(len < 0x100_0000 ==> ((((len / 0x1_0000) % 0x100) as u8) as usize * 0x1_0000
        + (((len / 0x100) % 0x100) as u8) as usize * 0x100 + ((len % 0x100) as u8) as usize) == len) by (bit_vector);
    assert(x < 0x8000_0000 ==> ((x / 0x100_0000) as u8) < 0x80) by (bit_vector);
    assert(((x / 0x100_0000) as u8) as u32 * 0x100_0000 + (((x / 0x1_0000) % 0x100) as u8) as u32 * 0x1_0000
        + (((x / 0x100) % 0x100) as u8) as u32 * 0x100 + ((x % 0x100) as u8) as u32 == x) by (bit_vector);
    assert(b[5] == be32(x)[0] && b[6] == be32(x)[1] && b[7] == be32(x)[2] && b[8] == be32(x)[3]);
}

/// A WINDOW_UPDATE increment is the 31-bit big-endian number after a
/// reserved bit: decoding ignores that bit, and encoding an increment below
/// 2^31 writes it with the bit clear.
pub proof fn lemma_window_update_on_wire(p: Seq<u8>, h: FrameHeader, inc: u32)
    requires
        h.frame_type == 0x8,
        p.len() >= 4,
        inc < 0x8000_0000,
    ensures
        parse_body(p, h) matches Ok(BodyModel::WindowUpdate { window_size_increment: n })
            && n as int == (p[0] % 0x80) as int * 0x100_0000 + p[1] as int * 0x1_0000 + p[2] as int * 0x100 + p[3] as int,
        ({
            let b = body_bytes(BodyModel::WindowUpdate { window_size_increment: inc });
            &&& b.len() == 4
            &&& b[0] < 0x80
            &&& b[0] as int * 0x100_0000 + b[1] as int * 0x1_0000 + b[2] as int * 0x100 + b[3] as int == inc
        }),
{
    lemma_word_bits(p[0], p[1], p[2], p[3]);
    lemma_stream_bits_small(inc);
    assert(inc < 0x8000_0000 ==> ((inc / 0x100_0000) as u8) < 0x80) by (bit_vector);
    assert(((inc / 0x100_0000) as u8) as u32 * 0x100_0000 + (((inc / 0x1_0000) % 0x100) as u8) as u32 * 0x1_0000
        + (((inc / 0x100) % 0x100) as u8) as u32 * 0x100 + ((inc % 0x100) as u8) as u32 == inc) by (bit_vector);
}

/// Decoding the encoding of a frame gives the frame back: the header decodes to
/// the frame's header, and the payload, which decoding is defined on, decodes
/// to the frame's payload.
pub proof fn lemma_frame_roundtrip(f: FrameModel)
    requires
        wire_representable(f),
    ensures
        parse_header(frame_bytes(f).take(9)) == Ok::<FrameHeader, HeaderDeserializationError>(f.header),
        body_parse_defined(frame_bytes(f).skip(9), f.header),
        parse_body(frame_bytes(f).skip(9), f.header) == Ok::<BodyModel, BodyDeserializationError>(f.payload),
{
    lemma_header_roundtrip(f.header);
    let bytes = frame_bytes(f);
    assert(bytes.take(9) =~= header_bytes(f.header));
    assert(bytes.skip(9) =~= body_bytes(f.payload));
    lemma_body_roundtrip(f);
}

proof fn lemma_header_roundtrip(h: FrameHeader)
    requires
        h.length < 0x100_0000,
        h.stream_id < 0x8000_0000,
        h.frame_type <= 9,
    ensures
        parse_header(header_bytes(h)) == Ok::<FrameHeader, HeaderDeserializationError>(h),
{
    let b = header_bytes(h);
    let len = h.length;
    assert(len < 0x100_0000 ==> ((((len / 0x1_0000) % 0x100) as u8) as usize * 0x1_0000
        + (((len / 0x100) % 0x100) as u8) as usize * 0x100 + ((len % 0x100) as u8) as usize) == len) by (bit_vector);
    lemma_stream_bits_small(h.stream_id);
    assert(b.subrange(5, 9) =~= be32(stream_bits(h.stream_id)));
    lemma_be32_at(b, 5, stream_bits(h.stream_id));
}

proof fn lemma_body_roundtrip(f: FrameModel)
    requires
        wire_representable(f),
    ensures
        body_parse_defined(body_bytes(f.payload), f.header),
        parse_body(body_bytes(f.payload), f.header) == Ok::<BodyModel, BodyDeserializationError>(f.payload),
{
    match f.payload {
        BodyModel::Data { .. } => lemma_data_roundtrip(f),
        BodyModel::Headers { .. } => lemma_headers_roundtrip(f),
        BodyModel::Settings(ps) => lemma_settings_roundtrip(f),
        BodyModel::PushPromise { .. } => lemma_push_promise_roundtrip(f),
        _ => lemma_fixed_roundtrip(f),
    }
}

proof fn lemma_data_roundtrip(f: FrameModel)
    requires
        wire_representable(f),
        f.payload is Data,
    ensures
        body_parse_defined(body_bytes(f.payload), f.header),
        parse_body(body_bytes(f.payload), f.header) == Ok::<BodyModel, BodyDeserializationError>(f.payload),
{
    let p = body_bytes(f.payload);
    if let BodyModel::Data { pad_length, data } = f.payload {
        match pad_length {
            Some(n) => {
                assert(p[0] == n as u8);
                assert(p.subrange(1, p.len() - n) =~= data);
            },
            None => {
                assert(p =~= data);
            },
        }
    }
}

proof fn lemma_headers_roundtrip(f: FrameModel)
    requires
        wire_representable(f),
        f.payload is Headers,
    ensures
        body_parse_defined(body_bytes(f.payload), f.header),
        parse_body(body_bytes(f.payload), f.header) == Ok::<BodyModel, BodyDeserializationError>(f.payload),
{
    let p = body_bytes(f.payload);
    if let BodyModel::Headers { pad_length, priority, hdr_block_frag } = f.payload {
        let start = if pad_length is Some { 1int } else { 0int };
        let end = p.len() - pad_size(pad_length) + start;
        match pad_length {
            Some(n) => { assert(p[0] == n as u8); },
            None => {},
        }
        match priority {
            Some(pr) => {
                let x = with_exclusive(pr.e, pr.stream_dep);
                lemma_stream_bits_small(pr.stream_dep);
                assert(p.subrange(start, start + 4) =~= be32(x));
                lemma_be32_at(p, start, x);
                assert(p[start + 4] == pr.weight);
                assert(p.subrange(start + 5, end) =~= hdr_block_frag);
            },
            None => {
                assert(p.subrange(start, end) =~= hdr_block_frag);
            },
        }
    }
}

proof fn lemma_settings_roundtrip(f: FrameModel)
    requires
        wire_representable(f),
        f.payload is Settings,
    ensures
        body_parse_defined(body_bytes(f.payload), f.header),
        parse_body(body_bytes(f.payload), f.header) == Ok::<BodyModel, BodyDeserializationError>(f.payload),
{
    let p = body_bytes(f.payload);
    if let BodyModel::Settings(ps) = f.payload {
        lemma_settings_bytes_len(ps);
        assert(p.len() / 6 == ps.len()) by (nonlinear_arith) requires p.len() == 6 * ps.len();
        lemma_parse_settings_roundtrip(ps, ps.len());
        assert(ps.take(ps.len() as int) =~= ps);
    }
}

proof fn lemma_push_promise_roundtrip(f: FrameModel)
    requires
        wire_representable(f),
        f.payload is PushPromise,
    ensures
        body_parse_defined(body_bytes(f.payload), f.header),
        parse_body(body_bytes(f.payload), f.header) == Ok::<BodyModel, BodyDeserializationError>(f.payload),
{
    let p = body_bytes(f.payload);
    if let BodyModel::PushPromise { pad_length, promised_stream_id, hdr_block_frag } = f.payload {
        let start = if pad_length is Some { 1int } else { 0int };
        match pad_length {
            Some(n) => { assert(p[0] == n as u8); },
            None => {},
        }
        lemma_stream_bits_small(promised_stream_id);
        assert(p.subrange(start, start + 4) =~= be32(promised_stream_id));
        lemma_be32_at(p, start, promised_stream_id);
        assert(p.subrange(start + 4, p.len() - pad_size(pad_length) + start) =~= hdr_block_frag);
    }
}

proof fn lemma_fixed_roundtrip(f: FrameModel)
    requires
        wire_representable(f),
        !(f.payload is Data || f.payload is Headers || f.payload is Settings || f.payload is PushPromise),
    ensures
        body_parse_defined(body_bytes(f.payload), f.header),
        parse_body(body_bytes(f.payload), f.header) == Ok::<BodyModel, BodyDeserializationError>(f.payload),
{
    let p = body_bytes(f.payload);
    match f.payload {
        BodyModel::Priority { e, stream_dep, weight } => {
            let x = with_exclusive(e, stream_dep);
            lemma_stream_bits_small(stream_dep);
            assert(p.subrange(0, 4) =~= be32(x));
            lemma_be32_at(p, 0, x);
        },
        BodyModel::RstStream { error_code } => {
            assert(p.subrange(0, 4) =~= be32(error_code.spec_code()));
            lemma_be32_at(p, 0, error_code.spec_code());
        },
        BodyModel::Ping { data } => {
            assert(p.subrange(0, 8) =~= data);
        },
        BodyModel::GoAway { last_stream_id, error_code, additional_debug_data } => {
            lemma_stream_bits_small(last_stream_id);
            assert(p.subrange(0, 4) =~= be32(last_stream_id));
            lemma_be32_at(p, 0, last_stream_id);
            assert(p.subrange(4, 8) =~= be32(error_code.spec_code()));
            lemma_be32_at(p, 4, error_code.spec_code());
            assert(p.subrange(8, p.len() as int) =~= additional_debug_data);
        },
        BodyModel::WindowUpdate { window_size_increment } => {
            lemma_stream_bits_small(window_size_increment);
            assert(p.subrange(0, 4) =~= be32(window_size_increment));
            lemma_be32_at(p, 0, window_size_increment);
        },
        _ => {},
    }
}

} // verus!
