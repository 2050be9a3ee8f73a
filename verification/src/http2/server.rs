//! Starting an HTTP/2 connection with prior knowledge (RFC 7540 section 3.4):
//! the client preface, the peer's first settings, and the server's preface.

use vstd::prelude::*;
use vstd::utf8::{decode_utf8, valid_utf8};
use bytes::Bytes;
use crate::buf::{bytes_new, bytes_view};
use crate::http::ReqHandlerFn;
use crate::text::{owned, string_from_utf8};
use super::connection::settings_ack;
use super::frames::error::DeserializationError;
use super::frames::{lemma_settings_bytes_len, frame_bytes, header_for, BodyModel, Frame, FrameBody, FrameModel, SETTINGS_ACK};
use super::settings::{default_settings, map_params_upto, SettingParam, SettingsIdentifier, SettingsMap};

verus! {

/// An HTTP/2 server: the request handler, and how many connections it has
/// numbered so far.
pub struct Server<T: ReqHandlerFn + Copy + 'static> {
    pub handler: T,
    pub connection_count: usize,
}

/// The connection count after one more connection, wrapping.
pub open spec fn next_count(c: usize) -> usize {
    if c == usize::MAX { 0 } else { (c + 1) as usize }
}

/// The connection count of a new server after `n` connections.
pub open spec fn count_after(n: nat) -> usize
    decreases n,
{
    if n == 0 { 0 } else { next_count(count_after((n - 1) as nat)) }
}

/// A new server numbers its connections 0, 1, 2, ... in the order they come
/// (`next_connection_id` hands out the count before the call), so no two
/// connections get the same number before the count wraps.
pub proof fn lemma_connection_ids(i: nat, j: nat)
    requires
        i <= usize::MAX,
        j <= usize::MAX,
    ensures
        count_after(i) == i,
        i != j ==> count_after(i) != count_after(j),
{
    lemma_count_after(i);
    lemma_count_after(j);
}

proof fn lemma_count_after(n: nat)
    requires
        n <= usize::MAX,
    ensures
        count_after(n) == n,
    decreases n,
{
    if n > 0 {
        lemma_count_after((n - 1) as nat);
    }
}

impl<T: ReqHandlerFn + Copy + 'static> Server<T> {
    /// A server that answers with `handler` and has numbered no connection.
    pub fn new(handler: T) -> (s: Self)
        ensures
            s.handler == handler,
            s.connection_count == 0,
    {
        Self { handler, connection_count: 0 }
    }

    /// The number of a new connection; the count goes up by one, wrapping.
    pub fn next_connection_id(&mut self) -> (id: usize)
        ensures
            id == old(self).connection_count,
            final(self).handler == old(self).handler,
            final(self).connection_count == next_count(old(self).connection_count),
    {
        let id = self.connection_count;
        self.connection_count = if id == usize::MAX { 0 } else { id + 1 };
        id
    }
}

/// Whether the first 24 bytes a client sends are the HTTP/2 connection preface.
pub fn is_client_preface(preface: Vec<u8>) -> (r: bool)
    ensures
        r == (valid_utf8(preface@) && decode_utf8(preface@) == "PRI * HTTP/2.0\r\n\r\nSM\r\n\r\n"@),
{
    match string_from_utf8(preface) {
        Some(text) => text == owned("PRI * HTTP/2.0\r\n\r\nSM\r\n\r\n"),
        None => false,
    }
}

/// The parameters of the peer's first frame, which must be a SETTINGS frame
/// whose header agrees with its payload; `None` otherwise, or when no frame
/// could be read.
pub fn initial_peer_settings(read: Result<Frame, DeserializationError>) -> (r: Option<Vec<SettingParam>>)
    requires
        read matches Ok(f) ==> f@.payload.size() <= usize::MAX,
    ensures
        match read {
            Ok(f) => if f@.payload.size() == f.header.length && f@.payload is Settings {
                r matches Some(v) && f@.payload == BodyModel::Settings(v@)
            } else {
                r is None
            },
            Err(_) => r is None,
        },
{
    match read {
        Ok(frame) => {
            match frame.is_valid() {
                Err(_) => return None,
                Ok(()) => {},
            }
            match frame.payload {
                FrameBody::Settings(settings) => Some(settings),
                _ => None,
            }
        },
        Err(_) => None,
    }
}

/// The server's settings: the defaults, without server push.
pub fn server_settings() -> (s: SettingsMap)
    ensures
        s@ == default_settings().insert(2, 0),
{
    let mut s = SettingsMap::default();
    // Push is off: common clients do not support it.
    let _ = s.set(SettingsIdentifier::EnablePush, 0);
    s
}

/// The SETTINGS frame that announces a settings map.
pub open spec fn settings_frame(m: Map<u16, u32>) -> FrameModel {
    let payload = BodyModel::Settings(map_params_upto(m, 6));
    FrameModel { header: header_for(0, 0, payload), payload }
}

/// A map lists at most one parameter per identifier.
proof fn lemma_params_upto_len(m: Map<u16, u32>, k: u16)
    ensures
        map_params_upto(m, k).len() <= k,
    decreases k,
{
    if k > 0 {
        lemma_params_upto_len(m, (k - 1) as u16);
    }
}

/// The server's preface: the encoding of a SETTINGS frame with the server's
/// settings, then of the SETTINGS frame that acknowledges the client's.
pub fn server_preface(settings: &SettingsMap) -> (r: (Bytes, Bytes))
    ensures
        bytes_view(r.0) == frame_bytes(settings_frame(settings@)),
        bytes_view(r.1) == frame_bytes(settings_ack()),
{
    let params = settings.clone().to_params();
    proof {
        lemma_params_upto_len(settings@, 6);
        lemma_settings_bytes_len(params@);
    }
    let preface = Frame::new(0, 0, FrameBody::Settings(params));
    let ack = Frame::new(0, SETTINGS_ACK, FrameBody::Settings(Vec::new()));
    let preface_bytes = match preface.try_into_bytes() {
        Ok(b) => b,
        Err(_) => bytes_new(),
    };
    let ack_bytes = match ack.try_into_bytes() {
        Ok(b) => b,
        Err(_) => bytes_new(),
    };
    (preface_bytes, ack_bytes)
}

} // verus!
