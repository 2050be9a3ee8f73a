//! Errors of frame decoding.

use vstd::prelude::*;

verus! {

/// Why a frame header could not be decoded.
#[derive(Debug, Clone, Copy, PartialEq, Eq, Structural)]
pub enum HeaderDeserializationError {
    BufferTooSmall,
    UnknownFrameType(u8),
}

/// Why a frame payload could not be decoded.
#[derive(Debug, Clone, Copy, PartialEq, Eq, Structural)]
pub enum BodyDeserializationError {
    UnknownErrorCode(u32),
    UnknownSettingsIdentifier(u16),
}

/// Why a frame could not be read.
#[derive(Debug, Clone, Copy, PartialEq, Eq, Structural)]
pub enum DeserializationError {
    Header(HeaderDeserializationError),
    Body(BodyDeserializationError),
    BufReaderError,
}

} // verus!
