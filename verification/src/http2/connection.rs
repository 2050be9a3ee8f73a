//! The protocol decisions of one HTTP/2 connection: the connection's
//! settings, streams and flow-control window, what each received frame does
//! to them and what it calls for in return, and the frames of a response.

use vstd::prelude::*;
use std::collections::HashMap;
use bytes::Bytes;
use vstd::std_specs::iter::IteratorSpec;
use super::frames::{
    body_bytes, frame_bytes, FRAME_HDR_SIZE, contains_flag, has_flag, header_for, BodyModel, ErrorCode, Frame, FrameBody, FrameModel, CONTINUATION_END_HEADERS,
    HEADERS_END_HEADERS, HEADERS_END_STREAM, PING_ACK, SETTINGS_ACK,
};
use super::stream::{compress_header, compressed};
use super::window::{data_frames, frame_models, frames_data, lemma_data_frames_carry, sendable};
use super::settings::SettingsIdentifier;
use crate::http::{hdr_map_size, hdr_size, header_insert, HTTPResponse, HeadersMap, HeaderEntries, HeaderValView, ResponseModel, ResponseStatus};
use crate::text::{decimal, str_to_lowercase, unicode_lowercase, usize_to_string};
use super::settings::{apply_params, default_settings, SettingParam, SettingsMap};
use super::stream::{recv_outcome, recv_transition, send_transition, AssemblerModel, ReqAssemblerState, Stream, StreamModel, StreamState};
use crate::http::{HTTPRequest, RequestModel};
use super::window::WindowModel;
use crate::buf::{bytes_clone, bytes_len, bytes_mut_zeroed, bytes_new, bytes_slice, bytes_view, freeze};
use super::frames::error::{DeserializationError, HeaderDeserializationError};

verus! {

broadcast use vstd::std_specs::hash::group_hash_axioms;

/// The state of one connection.
pub struct Connection {
    pub server_settings: SettingsMap,
    pub peer_settings: SettingsMap,
    pub max_stream_id: u32,
    pub concurrent_stream_count: u32,
    pub available_size: u32,
    pub streams: HashMap<u32, Stream>,
    pub id: usize,
}

/// A connection as a mathematical value.
pub struct ConnModel {
    pub server_settings: Map<u16, u32>,
    pub peer_settings: Map<u16, u32>,
    pub max_stream_id: u32,
    pub concurrent_stream_count: u32,
    pub available_size: u32,
    pub streams: Map<u32, StreamModel>,
    pub id: usize,
}

impl View for Connection {
    type V = ConnModel;

    open spec fn view(&self) -> ConnModel {
        ConnModel {
            server_settings: self.server_settings@,
            peer_settings: self.peer_settings@,
            max_stream_id: self.max_stream_id,
            concurrent_stream_count: self.concurrent_stream_count,
            available_size: self.available_size,
            streams: self.streams@.map_values(|s: Stream| s@),
            id: self.id,
        }
    }
}

/// Whether a settings map holds a value for every identifier.
pub open spec fn has_all_settings(m: Map<u16, u32>) -> bool {
    forall|k: u16| 1 <= k <= 6 ==> #[trigger] m.contains_key(k)
}

/// Whether a settings map holds every identifier, each bounded setting within
/// its legal range.
pub open spec fn settings_valid(m: Map<u16, u32>) -> bool {
    &&& has_all_settings(m)
    &&& m[2] <= 1
    &&& m[4] <= 2147483647
    &&& 16384 <= m[5] <= 16777215
}

/// Applying parameters keeps a settings map valid: each value is range-checked.
pub proof fn lemma_apply_params_valid(m: Map<u16, u32>, ps: Seq<SettingParam>)
    requires
        settings_valid(m),
    ensures
        settings_valid(apply_params(m, ps).0),
    decreases ps.len(),
{
    if ps.len() > 0 {
        lemma_apply_params_valid(m, ps.drop_last());
        let m1 = apply_params(m, ps.drop_last()).0;
        assert forall|k: u16| 1 <= k <= 6 implies #[trigger] apply_params(m, ps).0.contains_key(k) by {
            assert(m1.contains_key(k));
        }
    }
}

/// The well-formedness of a connection: complete settings, the peer's within
/// range, windows within 2^31 - 1, and each stream stored under its identifier.
pub open spec fn conn_wf(c: ConnModel) -> bool {
    &&& has_all_settings(c.server_settings)
    &&& settings_valid(c.peer_settings)
    &&& c.available_size <= 2147483647
    &&& forall|k: u32| #[trigger] c.streams.contains_key(k) ==>
        c.streams[k].id == k && c.streams[k].window.available_size <= 2147483647
}

/// A stream as it is created.
pub open spec fn fresh_stream(id: u32, initial_window_size: u32) -> StreamModel {
    StreamModel {
        id,
        state: StreamState::Idle,
        assembler: AssemblerModel {
            hdr_block: Seq::empty(),
            body: Seq::empty(),
            trailer_block: Seq::empty(),
            state: ReqAssemblerState::Init,
        },
        window: WindowModel { data_buffer: None, available_size: initial_window_size as int },
    }
}

/// The streams without the idle ones.
pub open spec fn drop_idle(m: Map<u32, StreamModel>) -> Map<u32, StreamModel> {
    Map::new(|k: u32| m.contains_key(k) && m[k].state != StreamState::Idle, |k: u32| m[k])
}

/// The GOAWAY frame that closes a connection with an error.
pub open spec fn goaway(error_code: ErrorCode, last_stream_id: u32) -> FrameModel {
    let payload = BodyModel::GoAway { last_stream_id, error_code, additional_debug_data: Seq::empty() };
    FrameModel { header: header_for(0, 0, payload), payload }
}

/// Whether `k` occurs among the first `i` identifiers.
pub open spec fn seen(ids: Seq<u32>, i: int, k: u32) -> bool {
    exists|j: int| 0 <= j < i && #[trigger] ids[j] == k
}

/// The identifiers of the streams of a map.
fn stream_ids(streams: &HashMap<u32, Stream>) -> (v: Vec<u32>)
    ensures
        v@.to_set() == streams@.dom(),
        v@.no_duplicates(),
{
    let mut v: Vec<u32> = Vec::new();
    let ghost ks = vstd::std_specs::hash::spec_keys_iter(streams).remaining();
    for k in it: streams.keys()
        invariant
            it.seq() == ks,
            v@ == ks.take(it.index() as int).map_values(|r: &u32| *r),
    {
        v.push(*k);
        assert(v@ =~= ks.take(it.index() + 1).map_values(|r: &u32| *r));
    }
    assert(v@ =~= ks.map_values(|r: &u32| *r));
    assert(ks.unref() =~= ks.map_values(|r: &u32| *r));
    v
}

impl Connection {
    /// The frame that closes a connection with an error: a GOAWAY naming the
    /// last stream, with no debug data.
    pub fn close_with_error(error_code: ErrorCode, last_stream_id: u32) -> (f: Frame)
        ensures
            f@ == goaway(error_code, last_stream_id),
    {
        Frame::new(0, 0, FrameBody::GoAway { last_stream_id, error_code, additional_debug_data: bytes_new() })
    }

    /// A connection after the settings handshake: the server's settings, and
    /// the peer's defaults updated with the parameters of its first SETTINGS.
    pub fn new(server_settings: SettingsMap, peer_settings_params: Vec<SettingParam>, id: usize) -> (c: Connection)
        requires
            has_all_settings(server_settings@),
            apply_params(default_settings(), peer_settings_params@).1 is Ok,
        ensures
            conn_wf(c@),
            c@ == (ConnModel {
                server_settings: server_settings@,
                peer_settings: apply_params(default_settings(), peer_settings_params@).0,
                max_stream_id: 0,
                concurrent_stream_count: 1,
                available_size: 65535,
                streams: Map::empty(),
                id,
            }),
    {
        let mut peer_settings = SettingsMap::default();
        let r = peer_settings.update_with_vec(&peer_settings_params);
        proof {
            assert(settings_valid(default_settings()));
            lemma_apply_params_valid(default_settings(), peer_settings_params@);
        }
        let c = Connection {
            server_settings,
            peer_settings,
            max_stream_id: 0,
            concurrent_stream_count: 1,
            available_size: 65535,
            streams: HashMap::new(),
            id,
        };
        assert(c@.streams =~= Map::empty());
        c
    }

    /// The connection-level window toward the peer.
    pub fn get_window_size(&self) -> (n: u32)
        ensures
            n == self.available_size,
    {
        self.available_size
    }

    /// Sets the connection-level window toward the peer.
    pub fn set_window_size(&mut self, size: u32)
        ensures
            final(self)@ == (ConnModel { available_size: size, ..old(self)@ }),
    {
        self.available_size = size;
        assert(final(self)@.streams =~= old(self)@.streams);
    }

    /// Whether a stream with this identifier exists.
    pub fn has_stream(&self, id: u32) -> (r: bool)
        ensures
            r == self@.streams.contains_key(id),
    {
        self.streams.contains_key(&id)
    }

    /// Opens a stream with a higher identifier than any before; the idle streams
    /// with lower identifiers are closed (dropped).
    #[verifier::loop_isolation(false)]
    pub fn new_stream(&mut self, new_stream_id: u32)
        requires
            conn_wf(old(self)@),
            new_stream_id > old(self)@.max_stream_id,
        ensures
            conn_wf(final(self)@),
            final(self)@ == (ConnModel {
                streams: drop_idle(old(self)@.streams).insert(new_stream_id, fresh_stream(new_stream_id, old(self)@.peer_settings[4])),
                max_stream_id: new_stream_id,
                ..old(self)@
            }),
    {
        let initial = match self.peer_settings.get(super::settings::SettingsIdentifier::InitialWindowSize) {
            Some(v) => v,
            None => 65535,
        };
        assert(initial == old(self)@.peer_settings[4]);
        let new_stream = Stream::new(new_stream_id, initial);
        let ids = stream_ids(&self.streams);
        let ghost start = self@.streams;
        let mut i: usize = 0;
        while i < ids.len()
            invariant
                0 <= i <= ids@.len(),
                ids@.to_set() == start.dom(),
                ids@.no_duplicates(),
                self@ == (ConnModel { streams: self@.streams, ..old(self)@ }),
                self@.streams == Map::new(
                    |k: u32| start.contains_key(k) && !(seen(ids@, i as int, k) && start[k].state == StreamState::Idle),
                    |k: u32| start[k]),
            decreases ids@.len() - i,
        {
            let id = ids[i];
            assert(start.contains_key(id)) by {
                assert(ids@.contains(id));
                assert(ids@.to_set().contains(id));
            }
            assert(!seen(ids@, i as int, id)) by {
                if seen(ids@, i as int, id) {
                    let j = choose|j: int| 0 <= j < i && #[trigger] ids@[j] == id;
                    assert(ids@[j] == ids@[i as int]);
                }
            }
            let ghost prev = self@.streams;
            let ghost prev_raw = self.streams@;
            assert(prev.contains_key(id) && prev[id] == start[id]);
            let idle = match self.streams.get(&id) {
                Some(s) => s.state == StreamState::Idle,
                None => false,
            };
            assert(idle == (start[id].state == StreamState::Idle));
            if idle {
                self.streams.remove(&id);
                assert(self.streams@ == prev_raw.remove(id));
                assert(self@.streams =~= prev.remove(id));
            }
            i = i + 1;
            assert forall|k: u32| seen(ids@, i as int, k) <==> (seen(ids@, i - 1, k) || k == id) by {
                if k == id {
                    assert(ids@[i - 1] == k);
                }
                if seen(ids@, i - 1, k) {
                    let j = choose|j: int| 0 <= j < i - 1 && #[trigger] ids@[j] == k;
                    assert(ids@[j] == k);
                }
            }
            assert(self@.streams =~= Map::new(
                |k: u32| start.contains_key(k) && !(seen(ids@, i as int, k) && start[k].state == StreamState::Idle),
                |k: u32| start[k]));
        }
        assert forall|k: u32| start.contains_key(k) implies seen(ids@, ids@.len() as int, k) by {
            assert(ids@.to_set().contains(k));
            assert(ids@.contains(k));
            let j = choose|j: int| 0 <= j < ids@.len() && ids@[j] == k;
            assert(ids@[j] == k);
        }
        assert(self@.streams =~= drop_idle(start));
        self.streams.insert(new_stream_id, new_stream);
        self.max_stream_id = new_stream_id;
        assert(self@.streams =~= drop_idle(start).insert(new_stream_id, fresh_stream(new_stream_id, old(self)@.peer_settings[4])));
    }
}


/// A pad length, or zero without padding.
pub open spec fn pad_or_zero(p: Option<usize>) -> usize {
    match p {
        Some(n) => n,
        None => 0,
    }
}

/// The SETTINGS frame that acknowledges the peer's settings.
pub open spec fn settings_ack() -> FrameModel {
    let payload = BodyModel::Settings(Seq::empty());
    FrameModel { header: header_for(0, SETTINGS_ACK, payload), payload }
}

/// The PING frame that answers a PING.
pub open spec fn ping_ack(stream_id: u32, data: Seq<u8>) -> FrameModel {
    let payload = BodyModel::Ping { data };
    FrameModel { header: header_for(stream_id, PING_ACK, payload), payload }
}

/// What a received frame calls for on the connection level (RFC 7540
/// section 6): an answer, nothing, or the error that closes the connection;
/// and the peer's settings after it.
pub open spec fn frame_check(c: ConnModel, f: FrameModel) -> (Map<u16, u32>, Result<Option<FrameModel>, ErrorCode>) {
    let h = f.header;
    let sid = h.stream_id;
    let peer = c.peer_settings;
    match f.payload {
        BodyModel::Data { pad_length, .. } => (peer,
            if sid == 0 {
                Err(ErrorCode::ProtocolError)
            } else if h.length <= pad_or_zero(pad_length) {
                Err(ErrorCode::ProtocolError)
            } else if c.streams.contains_key(sid) {
                if c.streams[sid].state != StreamState::Open && c.streams[sid].state != StreamState::HalfClosedRemote {
                    Err(ErrorCode::StreamClosed)
                } else {
                    Ok(None)
                }
            } else {
                Err(ErrorCode::StreamClosed)
            }),
        BodyModel::Headers { pad_length, priority, .. } => (peer,
            if sid == 0 {
                Err(ErrorCode::ProtocolError)
            } else if h.length <= pad_or_zero(pad_length) {
                Err(ErrorCode::ProtocolError)
            } else if priority is Some && priority.unwrap().stream_dep == sid {
                Err(ErrorCode::ProtocolError)
            } else {
                Ok(None)
            }),
        BodyModel::Priority { stream_dep, .. } => (peer,
            if sid == 0 || sid == stream_dep {
                Err(ErrorCode::ProtocolError)
            } else if h.length != 5 {
                Err(ErrorCode::FrameSizeError)
            } else {
                Ok(None)
            }),
        BodyModel::RstStream { .. } => (peer,
            if h.length != 4 {
                Err(ErrorCode::FrameSizeError)
            } else if c.streams.contains_key(sid) {
                if c.streams[sid].state == StreamState::Idle { Err(ErrorCode::ProtocolError) } else { Ok(None) }
            } else {
                Err(ErrorCode::ProtocolError)
            }),
        BodyModel::Settings(ps) =>
            if sid != 0 {
                (peer, Err(ErrorCode::ProtocolError))
            } else if h.length % 6 != 0 {
                (peer, Err(ErrorCode::FrameSizeError))
            } else if has_flag(h.flags, SETTINGS_ACK) {
                (peer, if h.length != 0 { Err(ErrorCode::FrameSizeError) } else { Ok(None) })
            } else {
                let (p2, r) = apply_params(peer, ps);
                (p2, match r {
                    Err(e) => Err(e),
                    Ok(_) => Ok(Some(settings_ack())),
                })
            },
        BodyModel::PushPromise { .. } => (peer, Err(ErrorCode::ProtocolError)),
        BodyModel::Ping { data } => (peer,
            if sid != 0 {
                Err(ErrorCode::ProtocolError)
            } else if h.length != 8 {
                Err(ErrorCode::FrameSizeError)
            } else if h.flags == PING_ACK {
                Ok(None)
            } else {
                Ok(Some(ping_ack(sid, data)))
            }),
        BodyModel::GoAway { .. } => (peer, Err(ErrorCode::NoError)),
        BodyModel::WindowUpdate { window_size_increment } => (peer,
            if h.length != 4 {
                Err(ErrorCode::FrameSizeError)
            } else if window_size_increment == 0 {
                Err(ErrorCode::ProtocolError)
            } else {
                Ok(None)
            }),
        BodyModel::Continuation { .. } => (peer, if sid == 0 { Err(ErrorCode::ProtocolError) } else { Ok(None) }),
    }
}

/// Whether an answer is what the model says.
pub open spec fn answer_matches(r: Result<Option<Frame>, ErrorCode>, m: Result<Option<FrameModel>, ErrorCode>) -> bool {
    match (r, m) {
        (Ok(Some(f)), Ok(Some(g))) => f@ == g,
        (Ok(None), Ok(None)) => true,
        (Err(e), Err(d)) => e == d,
        _ => false,
    }
}

impl Connection {
    /// Checks a received frame on the connection level (RFC 7540 section 6),
    /// applies the peer's new settings, and answers SETTINGS and PING.
    pub fn handle_frame(&mut self, frame: &Frame) -> (r: Result<Option<Frame>, ErrorCode>)
        requires
            conn_wf(old(self)@),
        ensures
            conn_wf(final(self)@),
            final(self)@ == (ConnModel { peer_settings: frame_check(old(self)@, frame@).0, ..old(self)@ }),
            answer_matches(r, frame_check(old(self)@, frame@).1),
    {
        let sid = frame.header.stream_id;
        let length = frame.header.length;
        match &frame.payload {
            // Section 6.1
            FrameBody::Data { pad_length, .. } => {
                let pad = match pad_length {
                    Some(n) => *n,
                    None => 0,
                };
                if sid == 0x0 {
                    Err(ErrorCode::ProtocolError)
                } else if length <= pad {
                    Err(ErrorCode::ProtocolError)
                } else {
                    match self.streams.get(&sid) {
                        Some(stream) => {
                            if stream.state != StreamState::Open && stream.state != StreamState::HalfClosedRemote {
                                Err(ErrorCode::StreamClosed)
                            } else {
                                Ok(None)
                            }
                        },
                        None => Err(ErrorCode::StreamClosed),
                    }
                }
            },
            // Section 6.2
            FrameBody::Headers { pad_length, priority, .. } => {
                let pad = match pad_length {
                    Some(n) => *n,
                    None => 0,
                };
                if sid == 0x0 {
                    Err(ErrorCode::ProtocolError)
                } else if length <= pad {
                    Err(ErrorCode::ProtocolError)
                } else {
                    match priority {
                        Some(priority) => {
                            if priority.stream_dep == sid {
                                Err(ErrorCode::ProtocolError)
                            } else {
                                Ok(None)
                            }
                        },
                        None => Ok(None),
                    }
                }
            },
            // Section 6.3
            FrameBody::Priority { stream_dep, .. } => {
                if sid == 0x0 || sid == *stream_dep {
                    Err(ErrorCode::ProtocolError)
                } else if length != 5 {
                    Err(ErrorCode::FrameSizeError)
                } else {
                    Ok(None)
                }
            },
            // Section 6.4
            FrameBody::RstStream { .. } => {
                if length != 4 {
                    Err(ErrorCode::FrameSizeError)
                } else {
                    match self.streams.get(&sid) {
                        Some(stream) => {
                            if stream.state == StreamState::Idle {
                                Err(ErrorCode::ProtocolError)
                            } else {
                                Ok(None)
                            }
                        },
                        None => Err(ErrorCode::ProtocolError),
                    }
                }
            },
            // Section 6.5
            FrameBody::Settings(settings) => {
                if sid != 0x0 {
                    Err(ErrorCode::ProtocolError)
                } else if length % 6 != 0 {
                    Err(ErrorCode::FrameSizeError)
                } else if contains_flag(frame.header.flags, SETTINGS_ACK) {
                    if length != 0 {
                        Err(ErrorCode::FrameSizeError)
                    } else {
                        Ok(None)
                    }
                } else {
                    // Update the peer's settings; an inappropriate value is an error.
                    proof { lemma_apply_params_valid(self@.peer_settings, settings@); }
                    match self.peer_settings.update_with_vec(settings) {
                        Ok(()) => {},
                        Err(e) => return Err(e),
                    }
                    // Acknowledge
                    Ok(Some(Frame::new(0, SETTINGS_ACK, FrameBody::Settings(Vec::new()))))
                }
            },
            // Section 6.6: push is not enabled, so PUSH_PROMISE is a protocol error.
            FrameBody::PushPromise { .. } => Err(ErrorCode::ProtocolError),
            // Section 6.7
            FrameBody::Ping { data } => {
                if sid != 0x0 {
                    Err(ErrorCode::ProtocolError)
                } else if length != 8 {
                    Err(ErrorCode::FrameSizeError)
                } else if frame.header.flags == PING_ACK {
                    Ok(None)
                } else {
                    Ok(Some(Frame::new(sid, PING_ACK, FrameBody::Ping { data: bytes_clone(data) })))
                }
            },
            // Section 6.8
            FrameBody::GoAway { .. } => Err(ErrorCode::NoError),
            // Section 6.9
            FrameBody::WindowUpdate { window_size_increment } => {
                if length != 4 {
                    Err(ErrorCode::FrameSizeError)
                } else if *window_size_increment == 0 {
                    Err(ErrorCode::ProtocolError)
                } else {
                    Ok(None)
                }
            },
            // Section 6.10
            FrameBody::Continuation { .. } => {
                if sid == 0x0 {
                    Err(ErrorCode::ProtocolError)
                } else {
                    Ok(None)
                }
            },
        }
    }
}


/// The CONTINUATION frames that carry the rest of a header block, at most
/// `part` bytes each; the last one ends the header block.
pub open spec fn continuation_frames(rest: Seq<u8>, part: nat, sid: u32) -> Seq<FrameModel>
    decreases rest.len(),
{
    if rest.len() == 0 || part == 0 {
        Seq::empty()
    } else {
        let take = if rest.len() < part { rest.len() } else { part };
        let flags = if rest.len() <= part { CONTINUATION_END_HEADERS } else { 0u8 };
        let payload = BodyModel::Continuation { hdr_block_frag: rest.take(take as int) };
        seq![FrameModel { header: header_for(sid, flags, payload), payload }]
            + continuation_frames(rest.skip(take as int), part, sid)
    }
}

/// The flags of the HEADERS frame of a response: END_STREAM when there is no
/// body, END_HEADERS when the whole header block fits the frame.
pub open spec fn headers_flags(fits: bool, has_body: bool) -> u8 {
    let end_stream = if has_body { 0u8 } else { HEADERS_END_STREAM };
    if fits { (end_stream + HEADERS_END_HEADERS) as u8 } else { end_stream }
}

/// The frames that carry a response's header block: a HEADERS frame with the
/// first `part` bytes, then CONTINUATION frames. The HEADERS frame ends the
/// stream when there is no body; the last frame ends the header block.
pub open spec fn header_frames(hb: Seq<u8>, part: nat, has_body: bool, sid: u32) -> Seq<FrameModel> {
    if hb.len() == 0 || part == 0 {
        Seq::empty()
    } else {
        let take = if hb.len() < part { hb.len() } else { part };
        let flags = headers_flags(hb.len() <= part, has_body);
        let payload = BodyModel::Headers { pad_length: None, priority: None, hdr_block_frag: hb.take(take as int) };
        seq![FrameModel { header: header_for(sid, flags, payload), payload }]
            + continuation_frames(hb.skip(take as int), part, sid)
    }
}

/// The response's fields with its status as the `:status` pseudo-header.
pub open spec fn with_status(es: HeaderEntries, status: ResponseStatus) -> HeaderEntries {
    header_insert(es, ":status"@, HeaderValView::Single(decimal(status.spec_code() as nat)))
}

/// The size of the header fragments the peer accepts: the smaller of its
/// header table size and its maximum frame size.
pub open spec fn header_partition(peer: Map<u16, u32>) -> nat {
    if peer[1] < peer[5] { peer[1] as nat } else { peer[5] as nat }
}

/// The fields with every name in lower case; when two names become equal, the
/// later field wins.
pub open spec fn lowered(es: HeaderEntries) -> HeaderEntries
    decreases es.len(),
{
    if es.len() == 0 {
        Seq::empty()
    } else {
        header_insert(lowered(es.drop_last()), unicode_lowercase(es.last().0), es.last().1)
    }
}

impl Connection {
    /// Turns a response's header fields (with the `:status` pseudo-header added)
    /// into HEADERS and CONTINUATION frames. Fails when the stream does not
    /// exist or the header list exceeds the peer's maximum header list size.
    pub fn make_header_frames(&self, stream_id: u32, response: &mut HTTPResponse) -> (r: Result<Vec<Frame>, ()>)
        requires
            conn_wf(self@),
            self@.peer_settings[1] > 0,
            hdr_size(with_status(old(response)@.headers, old(response)@.status)) <= usize::MAX,
        ensures
            !self@.streams.contains_key(stream_id) ==> r is Err && final(response)@ == old(response)@,
            self@.streams.contains_key(stream_id) ==> {
                let headers = with_status(old(response)@.headers, old(response)@.status);
                &&& final(response)@ == (ResponseModel { headers, ..old(response)@ })
                &&& (self@.peer_settings[6] < hdr_size(headers) ==> r is Err)
                &&& (self@.peer_settings[6] >= hdr_size(headers) ==> (r matches Ok(frames) && frame_models(frames@)
                    == header_frames(compressed(headers), header_partition(self@.peer_settings), old(response)@.body is Some, stream_id)))
            },
    {
        if !self.streams.contains_key(&stream_id) {
            return Err(());
        }

        // Write the response pseudo-header
        let status_code = response.status.code();
        let code_text = usize_to_string(status_code as usize);
        response.set(":status", code_text.as_str());

        let header_bytes = compress_header(&response.headers);

        // Load the relevant settings
        let frame_partition_size = match self.peer_settings.get(SettingsIdentifier::MaxFrameSize) {
            Some(v) => v as usize,
            None => 16384,
        };
        let table_size = match self.peer_settings.get(SettingsIdentifier::HeaderTableSize) {
            Some(v) => v as usize,
            None => 4096,
        };
        let hdr_partition_size = if table_size < frame_partition_size { table_size } else { frame_partition_size };
        let max_hdr_size = match self.peer_settings.get(SettingsIdentifier::MaxHeaderListSize) {
            Some(v) => v as usize,
            None => 0,
        };
        if max_hdr_size < hdr_map_size(&response.headers) {
            return Err(());
        }

        let has_body = response.body.is_some();
        Ok(header_block_frames(&header_bytes, hdr_partition_size, has_body, stream_id))
    }
}


/// Cuts a header block into a HEADERS frame and CONTINUATION frames of at most
/// `hdr_partition_size` bytes each. The HEADERS frame ends the stream when
/// there is no body; the last frame ends the header block.
pub fn header_block_frames(header_bytes: &Bytes, hdr_partition_size: usize, has_body: bool, stream_id: u32) -> (frames: Vec<Frame>)
    requires
        hdr_partition_size > 0,
    ensures
        frame_models(frames@) == header_frames(bytes_view(*header_bytes), hdr_partition_size as nat, has_body, stream_id),
{
    let ghost hb = bytes_view(*header_bytes);
    let ghost part = hdr_partition_size as nat;
    let total = bytes_len(header_bytes);
    let mut frames: Vec<Frame> = Vec::new();
    let mut offset: usize = 0;
    while offset < total
        invariant
            total == hb.len(),
            hb == bytes_view(*header_bytes),
            hdr_partition_size == part,
            part > 0,
            offset <= total,
            offset == 0 ==> frames@.len() == 0,
            offset > 0 ==> frame_models(frames@) + continuation_frames(hb.skip(offset as int), part, stream_id)
                == header_frames(hb, part, has_body, stream_id),
        decreases total - offset,
    {
        let hdr_remaining_bytes = total - offset;
        let bytes_taken = if hdr_remaining_bytes < hdr_partition_size { hdr_remaining_bytes } else { hdr_partition_size };
        let frag = bytes_slice(header_bytes, offset, offset + bytes_taken);
        assert(bytes_view(frag) =~= hb.skip(offset as int).take(bytes_taken as int));
        let ghost prev = frames@;
        if offset == 0 {
            // The first header frame: END_STREAM without a body, END_HEADERS
            // when the whole block fits.
            let end_stream: u8 = if has_body { 0 } else { HEADERS_END_STREAM };
            let flags: u8 = if hdr_remaining_bytes <= hdr_partition_size { end_stream + HEADERS_END_HEADERS } else { end_stream };
            frames.push(Frame::new(stream_id, flags, FrameBody::Headers { pad_length: None, priority: None, hdr_block_frag: frag }));
            assert(hb.skip(0) =~= hb);
            assert(frame_models(frames@) =~= seq![frames@[0]@]);
        } else {
            let mut flags: u8 = 0;
            if hdr_remaining_bytes <= hdr_partition_size {
                flags = CONTINUATION_END_HEADERS;
            }
            frames.push(Frame::new(stream_id, flags, FrameBody::Continuation { hdr_block_frag: frag }));
            assert(frame_models(frames@) =~= frame_models(prev).push(frames@[prev.len() as int]@));
        }
        offset = offset + bytes_taken;
        assert(hb.skip(offset - bytes_taken).skip(bytes_taken as int) =~= hb.skip(offset as int));
        assert(frame_models(frames@) + continuation_frames(hb.skip(offset as int), part, stream_id)
            =~= header_frames(hb, part, has_body, stream_id));
    }
    proof {
        if total == 0 {
            assert(frame_models(frames@) =~= Seq::<FrameModel>::empty());
        } else {
            assert(frame_models(frames@) + continuation_frames(hb.skip(offset as int), part, stream_id)
                =~= frame_models(frames@));
        }
    }
    frames
}

/// A window after data is queued on it: refused while earlier data is pending.
pub open spec fn window_pushed(w: WindowModel, data: Seq<u8>) -> WindowModel {
    if w.data_buffer is Some { w } else { WindowModel { data_buffer: Some(data), ..w } }
}

/// A window after it lets out what it can, with the DATA frames that carry it.
pub open spec fn window_drained(w: WindowModel, max: nat, sid: u32) -> (WindowModel, Seq<FrameModel>) {
    if w.available_size <= 0 || w.data_buffer is None {
        (w, Seq::empty())
    } else {
        let buf = w.data_buffer.unwrap();
        let n = sendable(buf, w.available_size);
        (WindowModel {
            data_buffer: if n == buf.len() { None } else { Some(buf.skip(n as int)) },
            available_size: w.available_size - n,
        }, data_frames(buf, n, max, sid))
    }
}

/// Lower-cases the names of a response's header fields; when two names become
/// equal, the later field wins.
pub fn lowercase_header_names(resp: &mut HTTPResponse)
    ensures
        final(resp)@ == (ResponseModel { headers: lowered(old(resp)@.headers), ..old(resp)@ }),
{
    let mut header_lower = HeadersMap::new();
    let n = resp.headers.len();
    let mut i: usize = 0;
    while i < n
        invariant
            n == resp@.headers.len(),
            0 <= i <= n,
            header_lower@ == lowered(resp@.headers.take(i as int)),
        decreases n - i,
    {
        assert(resp@.headers.take(i + 1).drop_last() =~= resp@.headers.take(i as int));
        let (key, val) = resp.headers.entry(i);
        header_lower.insert(str_to_lowercase(key.as_str()), val.clone());
        i = i + 1;
    }
    assert(resp@.headers.take(n as int) =~= resp@.headers);
    resp.headers = header_lower;
}

/// What answering a request on a stream sends: the header frames, and the DATA
/// frames that the stream's window lets out of the body; with the stream after.
pub open spec fn response_plan(c: ConnModel, sid: u32, resp: ResponseModel) -> (Map<u32, StreamModel>, Seq<FrameModel>) {
    let headers = with_status(lowered(resp.headers), resp.status);
    if !c.streams.contains_key(sid) || c.peer_settings[6] < hdr_size(headers) {
        (c.streams, Seq::empty())
    } else {
        let hf = header_frames(compressed(headers), header_partition(c.peer_settings), resp.body is Some, sid);
        match resp.body {
            None => (c.streams, hf),
            Some(b) => {
                let s = c.streams[sid];
                let (w, dfs) = window_drained(window_pushed(s.window, b), c.peer_settings[5] as nat, sid);
                (c.streams.insert(sid, StreamModel { window: w, ..s }), hf + dfs)
            },
        }
    }
}

impl Connection {
    /// The frames that answer a request on a stream with a handler's response:
    /// header names in lower case, the header frames, then as much of the body
    /// as the stream's window lets out (the rest waits for WINDOW_UPDATE).
    pub fn respond(&mut self, stream_id: u32, resp: HTTPResponse) -> (frames: Vec<Frame>)
        requires
            conn_wf(old(self)@),
            old(self)@.peer_settings[1] > 0,
            hdr_size(with_status(lowered(resp@.headers), resp@.status)) <= usize::MAX,
        ensures
            conn_wf(final(self)@),
            final(self)@ == (ConnModel { streams: response_plan(old(self)@, stream_id, resp@).0, ..old(self)@ }),
            frame_models(frames@) == response_plan(old(self)@, stream_id, resp@).1,
    {
        let mut resp = resp;
        let ghost r0 = resp@;
        lowercase_header_names(&mut resp);
        match self.make_header_frames(stream_id, &mut resp) {
            Ok(mut frames) => {
                match resp.body {
                    Some(body) => {
                        let max_frame_size = match self.peer_settings.get(SettingsIdentifier::MaxFrameSize) {
                            Some(v) => v as usize,
                            None => 16384,
                        };
                        match self.streams.remove(&stream_id) {
                            Some(mut stream) => {
                                let ghost prev = frame_models(frames@);
                                let _ = stream.push_data(body);
                                match stream.get_ready_data_frames(max_frame_size) {
                                    Some(data_frames) => {
                                        let ghost dfs = frame_models(data_frames@);
                                        let mut data_frames = data_frames;
                                        frames.append(&mut data_frames);
                                        assert(frame_models(frames@) =~= prev + dfs);
                                    },
                                    None => {
                                        assert(frame_models(frames@) =~= prev + Seq::<FrameModel>::empty());
                                    },
                                }
                                self.streams.insert(stream_id, stream);
                                assert(self@.streams =~= response_plan(old(self)@, stream_id, r0).0);
                            },
                            None => {},
                        }
                        frames
                    },
                    None => frames,
                }
            },
            Err(()) => Vec::new(),
        }
    }
}


// ---------------------------------------------------------------------------
// Receiving frames: what one frame read from the peer does to the connection
// and what it calls for.

/// The RST_STREAM frame that resets a stream.
pub open spec fn rst_stream(sid: u32, error_code: ErrorCode) -> FrameModel {
    let payload = BodyModel::RstStream { error_code };
    FrameModel { header: header_for(sid, 0, payload), payload }
}

/// The frame that stands in for a frame that could not be decoded: a PING on
/// stream 0 with eight zero bytes, which asks for nothing.
pub open spec fn placeholder_ping() -> FrameModel {
    let payload = BodyModel::Ping { data: Seq::new(8, |i: int| 0u8) };
    FrameModel { header: header_for(0, 0, payload), payload }
}

/// Whether `order` lists every stream of the map once.
pub open spec fn is_order_of(order: Seq<u32>, m: Map<u32, StreamModel>) -> bool {
    order.to_set() == m.dom() && order.no_duplicates()
}

/// Step: a frame on a higher stream opens it when the identifier is odd (a
/// client stream); an even one closes the connection.
pub open spec fn open_step(c: ConnModel, f: FrameModel) -> (ConnModel, Seq<FrameModel>, bool) {
    let sid = f.header.stream_id;
    if sid > c.max_stream_id {
        if sid % 2 == 1 {
            (ConnModel {
                streams: drop_idle(c.streams).insert(sid, fresh_stream(sid, c.peer_settings[4])),
                max_stream_id: sid,
                ..c
            }, Seq::empty(), false)
        } else {
            (c, seq![goaway(ErrorCode::ProtocolError, sid)], true)
        }
    } else {
        (c, Seq::empty(), false)
    }
}

/// Whether some stream is in the middle of a header block.
pub open spec fn awaiting_continuation(c: ConnModel) -> bool {
    exists|k: u32| #[trigger] c.streams.contains_key(k) && c.streams[k].assembler.state == ReqAssemblerState::ReadingHeader
}

/// Step: while a header block is open, nothing but CONTINUATION may arrive
/// (RFC 7540 sections 6.2 and 8.1), unknown frames included (section 5.5).
pub open spec fn continuation_step(c: ConnModel, f: FrameModel, unknown_frame: bool) -> bool {
    awaiting_continuation(c) && (unknown_frame || !(f.payload is Continuation))
}

/// One stream's window shifted by a change of the initial window size, with
/// the DATA frames it then lets out; `None` when the window would exceed
/// 2^31 - 1.
pub open spec fn shifted(s: StreamModel, delta: int, max: nat) -> Option<(StreamModel, Seq<FrameModel>)> {
    if s.window.available_size + delta > 2147483647 {
        None
    } else {
        let w = WindowModel { available_size: s.window.available_size + delta, ..s.window };
        let (w2, dfs) = window_drained(w, max, s.id);
        Some((StreamModel { window: w2, ..s }, dfs))
    }
}

/// The active streams among the first `n` of `order` shifted in turn; the
/// shifting stops at the first window that would overflow, which closes the
/// connection with FLOW_CONTROL_ERROR.
pub open spec fn shift_streams(streams: Map<u32, StreamModel>, order: Seq<u32>, n: nat, delta: int, max: nat, sid: u32)
    -> (Map<u32, StreamModel>, Seq<FrameModel>, bool)
    decreases n,
{
    if n == 0 {
        (streams, Seq::empty(), false)
    } else {
        let (m, out, stopped) = shift_streams(streams, order, (n - 1) as nat, delta, max, sid);
        let k = order[n - 1];
        if stopped || !m.contains_key(k) || !m[k].state.spec_is_active() {
            (m, out, stopped)
        } else {
            match shifted(m[k], delta, max) {
                None => (m, out.push(goaway(ErrorCode::FlowControlError, sid)), true),
                Some((s2, dfs)) => (m.insert(k, s2), out + dfs, false),
            }
        }
    }
}

/// The streams after the first `n` parameters of a SETTINGS frame: each
/// INITIAL_WINDOW_SIZE shifts the active streams' windows by its difference to
/// the current initial window size.
pub open spec fn settings_shift(streams: Map<u32, StreamModel>, ps: Seq<SettingParam>, n: nat, initial: u32,
    order: Seq<u32>, max: nat, sid: u32) -> (Map<u32, StreamModel>, Seq<FrameModel>)
    decreases n,
{
    if n == 0 {
        (streams, Seq::empty())
    } else {
        let (m, out) = settings_shift(streams, ps, (n - 1) as nat, initial, order, max, sid);
        let p = ps[n - 1];
        if p.identifier == SettingsIdentifier::InitialWindowSize {
            let (m2, out2, _) = shift_streams(m, order, order.len(), p.value - initial, max, sid);
            (m2, out + out2)
        } else {
            (m, out)
        }
    }
}

/// Step: the window shifts that a SETTINGS frame calls for.
pub open spec fn settings_step(c: ConnModel, f: FrameModel, order: Seq<u32>) -> (Map<u32, StreamModel>, Seq<FrameModel>) {
    match f.payload {
        BodyModel::Settings(ps) => settings_shift(c.streams, ps, ps.len(), c.peer_settings[4], order,
            c.peer_settings[5] as nat, f.header.stream_id),
        _ => (c.streams, Seq::empty()),
    }
}

/// Step: a WINDOW_UPDATE grows the connection's window or a stream's; an
/// overflow closes the connection (stream 0) or resets the stream.
pub open spec fn window_step(c: ConnModel, f: FrameModel) -> (ConnModel, Seq<FrameModel>, bool) {
    let sid = f.header.stream_id;
    match f.payload {
        BodyModel::WindowUpdate { window_size_increment } =>
            if sid == 0 {
                if c.available_size + window_size_increment > 2147483647 {
                    (c, seq![goaway(ErrorCode::FlowControlError, sid)], true)
                } else {
                    (ConnModel { available_size: (c.available_size + window_size_increment) as u32, ..c }, Seq::empty(), false)
                }
            } else if c.streams.contains_key(sid) {
                match shifted(c.streams[sid], window_size_increment as int, c.peer_settings[5] as nat) {
                    None => (c, seq![rst_stream(sid, ErrorCode::FlowControlError)], false),
                    Some((s2, dfs)) => (ConnModel { streams: c.streams.insert(sid, s2), ..c }, dfs, false),
                }
            } else {
                (c, seq![goaway(ErrorCode::FlowControlError, sid)], true)
            },
        _ => (c, Seq::empty(), false),
    }
}

/// The connection-level checks of a received frame, in the order the reading
/// loop makes them; the streams' shifts follow `order`. Gives the connection
/// after, the frames to send, and whether the reading loop ends.
pub open spec fn rx_checks(c: ConnModel, f: FrameModel, unknown_frame: bool, order: Seq<u32>) -> (ConnModel, Seq<FrameModel>, bool) {
    let sid = f.header.stream_id;
    let (c2, out2, stop2) = open_step(c, f);
    if stop2 {
        (c2, out2, true)
    } else if continuation_step(c2, f, unknown_frame) {
        (c2, seq![goaway(ErrorCode::ProtocolError, sid)], true)
    } else {
        let out4 = if f.header.length > c2.peer_settings[5] { seq![goaway(ErrorCode::FrameSizeError, sid)] } else { Seq::empty() };
        let (streams5, out5) = settings_step(c2, f, order);
        let c5 = ConnModel { streams: streams5, ..c2 };
        let (peer6, answer) = frame_check(c5, f);
        let c6 = ConnModel { peer_settings: peer6, ..c5 };
        match answer {
            Err(e) => (c6, out4 + out5 + seq![goaway(e, sid)], true),
            Ok(a) => {
                let out6 = out4 + out5 + (match a { Some(g) => seq![g], None => Seq::empty() });
                let (c7, out7, stop7) = window_step(c6, f);
                (c7, out6 + out7, stop7)
            },
        }
    }
}

/// A wrapping step of the concurrent-stream counter.
pub open spec fn count_after(count: u32, active_before: bool, active_after: bool) -> u32 {
    if active_before && !active_after {
        (if count == 0 { u32::MAX as int } else { count - 1 }) as u32
    } else if !active_before && active_after {
        (if count == u32::MAX { 0 } else { count + 1 }) as u32
    } else {
        count
    }
}

/// Handing a frame to its stream (RFC 7540 sections 5.1, 5.1.2): the
/// connection after, the frames to send, the request that became complete,
/// and whether the reading loop ends.
pub open spec fn deliver(c: ConnModel, f: FrameModel) -> (ConnModel, Seq<FrameModel>, Option<RequestModel>, bool) {
    let sid = f.header.stream_id;
    let s = c.streams[sid];
    match recv_transition(s.state, f) {
        Err(e) => (c, seq![goaway(e, sid)], None, true),
        Ok(next) => {
            let (m2, outcome) = recv_outcome(s.assembler, f);
            let s2 = StreamModel { state: next, assembler: m2, ..s };
            let c2 = ConnModel { streams: c.streams.insert(sid, s2), ..c };
            match outcome {
                Err(e) => (c2, seq![goaway(e, sid)], None, true),
                Ok(req) => {
                    let count = count_after(c.concurrent_stream_count, s.state.spec_is_active(), next.spec_is_active());
                    let c3 = ConnModel { concurrent_stream_count: count, ..c2 };
                    if count > c.server_settings[3] {
                        (c3, seq![goaway(ErrorCode::ProtocolError, sid)], req, true)
                    } else {
                        (c3, Seq::empty(), req, false)
                    }
                },
            }
        },
    }
}

/// Whether every stream's window is at least `lo`.
pub open spec fn windows_above(streams: Map<u32, StreamModel>, lo: int) -> bool {
    forall|k: u32| #[trigger] streams.contains_key(k) ==> streams[k].window.available_size >= lo
}

/// The lowest window that the reading loop can go on from without an
/// overflow of its 64-bit window arithmetic.
pub open spec fn window_floor() -> int {
    -0x4000_0000_0000_0000
}

/// What reading one frame gave to the reading loop.
#[derive(Debug)]
pub enum ReadStep {
    /// A frame to process, and whether it stands in for an unknown frame type.
    Frame(Frame, bool),
    /// The loop ends, after sending the frame, if any.
    Stop(Option<Frame>),
}


/// The frame that stands in for one that could not be decoded.
fn placeholder_frame() -> (f: Frame)
    ensures
        f@ == placeholder_ping(),
{
    let zeroed_data = freeze(bytes_mut_zeroed(8));
    Frame::new(0, 0, FrameBody::Ping { data: zeroed_data })
}

impl Connection {
    /// What the reading loop makes of an attempt to read a frame: a frame to
    /// process; for an unknown frame type (RFC 7540 section 5.5) or a SETTINGS
    /// identifier or error code it does not know, a stand-in PING that asks for
    /// nothing; the end of the input; or, for a truncated header, the GOAWAY
    /// with PROTOCOL_ERROR that ends the connection.
    pub fn frame_of_read(read: Result<Frame, DeserializationError>) -> (s: ReadStep)
        ensures
            match read {
                Ok(f) => s == ReadStep::Frame(f, false),
                Err(DeserializationError::Header(HeaderDeserializationError::UnknownFrameType(_))) =>
                    s matches ReadStep::Frame(f, true) && f@ == placeholder_ping(),
                Err(DeserializationError::Body(_)) => s matches ReadStep::Frame(f, false) && f@ == placeholder_ping(),
                Err(DeserializationError::BufReaderError) => s == ReadStep::Stop(None),
                Err(DeserializationError::Header(HeaderDeserializationError::BufferTooSmall)) =>
                    s matches ReadStep::Stop(Some(f)) && f@ == goaway(ErrorCode::ProtocolError, 0),
            },
    {
        match read {
            Ok(frame) => ReadStep::Frame(frame, false),
            Err(DeserializationError::Header(HeaderDeserializationError::UnknownFrameType(_))) => {
                ReadStep::Frame(placeholder_frame(), true)
            },
            Err(DeserializationError::Body(_)) => ReadStep::Frame(placeholder_frame(), false),
            Err(DeserializationError::BufReaderError) => ReadStep::Stop(None),
            Err(DeserializationError::Header(HeaderDeserializationError::BufferTooSmall)) => {
                ReadStep::Stop(Some(Connection::close_with_error(ErrorCode::ProtocolError, 0)))
            },
        }
    }
}


impl Connection {
    /// A frame on a higher stream opens it when the identifier is odd; an even
    /// one is refused with a GOAWAY.
    fn open_for(&mut self, frame: &Frame) -> (r: (Vec<Frame>, bool))
        requires
            conn_wf(old(self)@),
        ensures
            conn_wf(final(self)@),
            (final(self)@, frame_models(r.0@), r.1) == open_step(old(self)@, frame@),
    {
        let sid = frame.header.stream_id;
        let out: Vec<Frame> = Vec::new();
        assert(frame_models(out@) =~= Seq::<FrameModel>::empty());
        if sid > self.max_stream_id {
            if sid % 2 == 1 {
                self.new_stream(sid);
                (out, false)
            } else {
                let mut out = out;
                out.push(Connection::close_with_error(ErrorCode::ProtocolError, sid));
                assert(frame_models(out@) =~= seq![goaway(ErrorCode::ProtocolError, sid)]);
                (out, true)
            }
        } else {
            (out, false)
        }
    }

    /// Whether the frame breaks an open header block: some stream awaits a
    /// CONTINUATION and the frame is another one, or of an unknown type.
    fn breaks_header_block(&self, frame: &Frame, unknown_frame: bool) -> (r: bool)
        ensures
            r == continuation_step(self@, frame@, unknown_frame),
    {
        let is_continuation = match frame.payload {
            FrameBody::Continuation { .. } => true,
            _ => false,
        };
        let ids = stream_ids(&self.streams);
        let mut i: usize = 0;
        while i < ids.len()
            invariant
                0 <= i <= ids@.len(),
                ids@.to_set() == self.streams@.dom(),
                is_continuation == (frame@.payload is Continuation),
                forall|j: int| 0 <= j < i ==> (#[trigger] self@.streams[ids@[j]]).assembler.state != ReqAssemblerState::ReadingHeader
                    || (!unknown_frame && is_continuation),
            decreases ids@.len() - i,
        {
            let id = ids[i];
            assert(ids@.to_set().contains(id));
            match self.streams.get(&id) {
                Some(stream) => {
                    if stream.get_req_assembler_state() == ReqAssemblerState::ReadingHeader {
                        if unknown_frame || !is_continuation {
                            assert(self@.streams.contains_key(id));
                            return true;
                        }
                    }
                },
                None => {},
            }
            i = i + 1;
        }
        proof {
            if awaiting_continuation(self@) && (unknown_frame || !is_continuation) {
                let k = choose|k: u32| #[trigger] self@.streams.contains_key(k)
                    && self@.streams[k].assembler.state == ReqAssemblerState::ReadingHeader;
                assert(ids@.to_set().contains(k));
                assert(ids@.contains(k));
                let j = choose|j: int| 0 <= j < ids@.len() && ids@[j] == k;
                assert(self@.streams[ids@[j]].assembler.state != ReqAssemblerState::ReadingHeader);
            }
        }
        false
    }
}


impl Connection {
    /// Shifts the windows of the active streams by `delta`, in the given order,
    /// sending what each window then lets out; stops at the first window that
    /// would exceed 2^31 - 1, with a GOAWAY.
    #[verifier::rlimit(30)]
    fn shift_windows(&mut self, order: &Vec<u32>, delta: i64, max: usize, sid: u32, Ghost(lo): Ghost<int>) -> (r: (Vec<Frame>, bool))
        requires
            conn_wf(old(self)@),
            order@.no_duplicates(),
            max > 0,
            -0x1_0000_0000 < delta < 0x1_0000_0000,
            lo >= i64::MIN + 0x1_0000_0000,
            windows_above(old(self)@.streams, lo),
        ensures
            conn_wf(final(self)@),
            final(self)@ == (ConnModel {
                streams: shift_streams(old(self)@.streams, order@, order@.len(), delta as int, max as nat, sid).0,
                ..old(self)@
            }),
            frame_models(r.0@) == shift_streams(old(self)@.streams, order@, order@.len(), delta as int, max as nat, sid).1,
            r.1 == shift_streams(old(self)@.streams, order@, order@.len(), delta as int, max as nat, sid).2,
            windows_above(final(self)@.streams, lo - 0x1_0000_0000),
    {
        let mut out: Vec<Frame> = Vec::new();
        let mut stopped = false;
        let mut i: usize = 0;
        let ghost start = self@.streams;
        assert(frame_models(out@) =~= Seq::<FrameModel>::empty());
        while i < order.len()
            invariant
                0 <= i <= order@.len(),
                order@.no_duplicates(),
                max > 0,
                -0x1_0000_0000 < delta < 0x1_0000_0000,
                lo >= i64::MIN + 0x1_0000_0000,
                conn_wf(self@),
                self@ == (ConnModel { streams: self@.streams, ..old(self)@ }),
                start == old(self)@.streams,
                self@.streams == shift_streams(start, order@, i as nat, delta as int, max as nat, sid).0,
                frame_models(out@) == shift_streams(start, order@, i as nat, delta as int, max as nat, sid).1,
                stopped == shift_streams(start, order@, i as nat, delta as int, max as nat, sid).2,
                forall|k: u32| #[trigger] self@.streams.contains_key(k) ==> {
                    &&& self@.streams[k].window.available_size >= lo - 0x1_0000_0000
                    &&& (!seen(order@, i as int, k) ==> self@.streams[k].window.available_size >= lo)
                },
            decreases order@.len() - i,
        {
            let k = order[i];
            let ghost m = self@.streams;
            let ghost m_raw = self.streams@;
            let ghost prev_out = frame_models(out@);
            assert(!seen(order@, i as int, k)) by {
                if seen(order@, i as int, k) {
                    let j = choose|j: int| 0 <= j < i && #[trigger] order@[j] == k;
                    assert(order@[j] == order@[i as int]);
                }
            }
            if !stopped {
                match self.streams.remove(&k) {
                    Some(mut stream) => {
                        assert(m.contains_key(k) && stream@ == m[k]);
                        if stream.state.is_active() {
                            match stream.window_update(delta) {
                                Err(()) => {
                                    out.push(Connection::close_with_error(ErrorCode::FlowControlError, sid));
                                    stopped = true;
                                    assert(frame_models(out@) =~= prev_out.push(goaway(ErrorCode::FlowControlError, sid)));
                                },
                                Ok(_) => {
                                    match stream.get_ready_data_frames(max) {
                                        Some(frames) => {
                                            let ghost dfs = frame_models(frames@);
                                            let mut frames = frames;
                                            out.append(&mut frames);
                                            assert(frame_models(out@) =~= prev_out + dfs);
                                        },
                                        None => {
                                            assert(frame_models(out@) =~= prev_out + Seq::<FrameModel>::empty());
                                        },
                                    }
                                },
                            }
                        }
                        self.streams.insert(k, stream);
                        assert(self.streams@ == m_raw.insert(k, stream));
                        assert(self@.streams =~= m.insert(k, stream@));
                    },
                    None => {},
                }
            }
            i = i + 1;
            assert forall|x: u32| seen(order@, i as int, x) <==> (seen(order@, i - 1, x) || x == k) by {
                if x == k {
                    assert(order@[i - 1] == x);
                }
                if seen(order@, i - 1, x) {
                    let j = choose|j: int| 0 <= j < i - 1 && #[trigger] order@[j] == x;
                    assert(order@[j] == x);
                }
            }
            assert(self@.streams =~= shift_streams(start, order@, i as nat, delta as int, max as nat, sid).0);
        }
        (out, stopped)
    }
}


/// Whether a SETTINGS frame carries fewer parameters than a 24-bit frame
/// length allows (any other frame qualifies).
pub open spec fn params_bounded(f: FrameModel) -> bool {
    f.payload matches BodyModel::Settings(ps) ==> ps.len() < 0x100_0000
}

impl Connection {
    /// The window shifts of a SETTINGS frame: each INITIAL_WINDOW_SIZE
    /// parameter shifts the active streams' windows by its difference to the
    /// current initial window size (RFC 7540 section 6.9.2).
    fn settings_windows(&mut self, frame: &Frame, order: &Vec<u32>) -> (out: Vec<Frame>)
        requires
            conn_wf(old(self)@),
            order@.no_duplicates(),
            windows_above(old(self)@.streams, window_floor()),
            params_bounded(frame@),
        ensures
            conn_wf(final(self)@),
            final(self)@ == (ConnModel { streams: settings_step(old(self)@, frame@, order@).0, ..old(self)@ }),
            frame_models(out@) == settings_step(old(self)@, frame@, order@).1,
            windows_above(final(self)@.streams, window_floor() - 0x100_0000_0000_0000),
    {
        let mut out: Vec<Frame> = Vec::new();
        assert(frame_models(out@) =~= Seq::<FrameModel>::empty());
        match &frame.payload {
            FrameBody::Settings(settings) => {
                let initial = match self.peer_settings.get(SettingsIdentifier::InitialWindowSize) {
                    Some(v) => v,
                    None => 65535,
                };
                let max = match self.peer_settings.get(SettingsIdentifier::MaxFrameSize) {
                    Some(v) => v as usize,
                    None => 16384,
                };
                let sid = frame.header.stream_id;
                let ghost start = self@.streams;
                let mut i: usize = 0;
                while i < settings.len()
                    invariant
                        0 <= i <= settings@.len(),
                        settings@.len() < 0x100_0000,
                        order@.no_duplicates(),
                        max > 0,
                        max == old(self)@.peer_settings[5],
                        initial == old(self)@.peer_settings[4],
                        conn_wf(self@),
                        self@ == (ConnModel { streams: self@.streams, ..old(self)@ }),
                        self@.streams == settings_shift(start, settings@, i as nat, initial, order@, max as nat, sid).0,
                        frame_models(out@) == settings_shift(start, settings@, i as nat, initial, order@, max as nat, sid).1,
                        windows_above(self@.streams, window_floor() - i * 0x1_0000_0000),
                    decreases settings@.len() - i,
                {
                    let p = settings[i];
                    match p.identifier {
                        SettingsIdentifier::InitialWindowSize => {
                            let delta = p.value as i64 - initial as i64;
                            let ghost prev = frame_models(out@);
                            let (frames, _) = self.shift_windows(order, delta, max, sid, Ghost(window_floor() - i * 0x1_0000_0000));
                            let ghost fs = frame_models(frames@);
                            let mut frames = frames;
                            out.append(&mut frames);
                            assert(frame_models(out@) =~= prev + fs);
                        },
                        _ => {},
                    }
                    i = i + 1;
                }
            },
            _ => {},
        }
        out
    }
}


impl Connection {
    /// A WINDOW_UPDATE grows the connection's window (stream 0) or a stream's,
    /// sending what the stream's window then lets out. A connection window
    /// beyond 2^31 - 1, or an unknown stream, ends the connection; a stream
    /// window beyond it resets the stream.
    fn window_update_step(&mut self, frame: &Frame) -> (r: (Vec<Frame>, bool))
        requires
            conn_wf(old(self)@),
            windows_above(old(self)@.streams, i64::MIN + 0x1_0000_0000),
        ensures
            conn_wf(final(self)@),
            (final(self)@, frame_models(r.0@), r.1) == window_step(old(self)@, frame@),
    {
        let sid = frame.header.stream_id;
        let mut out: Vec<Frame> = Vec::new();
        assert(frame_models(out@) =~= Seq::<FrameModel>::empty());
        match &frame.payload {
            FrameBody::WindowUpdate { window_size_increment } => {
                let increment = *window_size_increment;
                if sid == 0 {
                    // A connection-wide window update
                    let new_window_size = self.available_size as u64 + increment as u64;
                    if new_window_size > 2147483647 {
                        out.push(Connection::close_with_error(ErrorCode::FlowControlError, sid));
                        assert(frame_models(out@) =~= seq![goaway(ErrorCode::FlowControlError, sid)]);
                        (out, true)
                    } else {
                        self.set_window_size(new_window_size as u32);
                        (out, false)
                    }
                } else {
                    let max = match self.peer_settings.get(SettingsIdentifier::MaxFrameSize) {
                        Some(v) => v as usize,
                        None => 16384,
                    };
                    let ghost m = self@.streams;
                    let ghost m_raw = self.streams@;
                    match self.streams.remove(&sid) {
                        Some(mut stream) => {
                            assert(m.contains_key(sid) && stream@ == m[sid]);
                            match stream.window_update(increment as i64) {
                                Ok(_) => {
                                    match stream.get_ready_data_frames(max) {
                                        Some(frames) => {
                                            let ghost dfs = frame_models(frames@);
                                            let mut frames = frames;
                                            out.append(&mut frames);
                                            assert(frame_models(out@) =~= dfs);
                                        },
                                        None => {},
                                    }
                                },
                                Err(()) => {
                                    out.push(Frame::new(sid, 0, FrameBody::RstStream { error_code: ErrorCode::FlowControlError }));
                                    assert(frame_models(out@) =~= seq![rst_stream(sid, ErrorCode::FlowControlError)]);
                                },
                            }
                            self.streams.insert(sid, stream);
                            assert(self.streams@ == m_raw.insert(sid, stream));
                            assert(self@.streams =~= m.insert(sid, stream@));
                            proof {
                                if stream@ == m[sid] {
                                    assert(self@.streams =~= m);
                                }
                            }
                            (out, false)
                        },
                        None => {
                            assert(self.streams@ =~= m_raw);
                            out.push(Connection::close_with_error(ErrorCode::FlowControlError, sid));
                            assert(frame_models(out@) =~= seq![goaway(ErrorCode::FlowControlError, sid)]);
                            (out, true)
                        },
                    }
                }
            },
            _ => (out, false),
        }
    }
}


impl Connection {
    /// Processes a frame read from the peer on the connection level, as the
    /// reading loop does before the frame reaches its stream: opens a client
    /// stream or refuses an even stream identifier, refuses a frame that
    /// breaks an open header block, checks the frame size against the peer's
    /// maximum, shifts the stream windows for a new initial window size,
    /// checks the frame (`handle_frame`), and applies a WINDOW_UPDATE. Returns
    /// the frames to send and whether the reading loop ends. The windows are
    /// shifted in the iteration order of the stream map, which is left open.
    pub fn receive_frame(&mut self, frame: &Frame, unknown_frame: bool) -> (r: (Vec<Frame>, bool))
        requires
            conn_wf(old(self)@),
            windows_above(old(self)@.streams, window_floor()),
            params_bounded(frame@),
        ensures
            conn_wf(final(self)@),
            exists|order: Seq<u32>| #[trigger] is_order_of(order, open_step(old(self)@, frame@).0.streams)
                && (final(self)@, frame_models(r.0@), r.1) == rx_checks(old(self)@, frame@, unknown_frame, order),
    {
        let sid = frame.header.stream_id;
        let (out, stop) = self.open_for(frame);
        let ids = stream_ids(&self.streams);
        let ghost order = ids@;
        assert(self@.streams.dom() =~= self.streams@.dom());
        assert(is_order_of(order, open_step(old(self)@, frame@).0.streams));
        if stop {
            return (out, true);
        }
        let ghost c2 = self@;
        assert(windows_above(c2.streams, window_floor())) by {
            assert forall|k: u32| #[trigger] c2.streams.contains_key(k) implies c2.streams[k].window.available_size >= window_floor() by {
                if k != sid || !(sid > old(self)@.max_stream_id) {
                    assert(old(self)@.streams.contains_key(k));
                }
            }
        }
        let mut out = out;
        assert(frame_models(out@) =~= Seq::<FrameModel>::empty());
        // Section 8.1: nothing but CONTINUATION between HEADERS and the end of its header block.
        if self.breaks_header_block(frame, unknown_frame) {
            out.push(Connection::close_with_error(ErrorCode::ProtocolError, sid));
            assert(frame_models(out@) =~= seq![goaway(ErrorCode::ProtocolError, sid)]);
            return (out, true);
        }
        let max_frame_size = match self.peer_settings.get(SettingsIdentifier::MaxFrameSize) {
            Some(v) => v as usize,
            None => 16384,
        };
        if frame.header.length > max_frame_size {
            out.push(Connection::close_with_error(ErrorCode::FrameSizeError, sid));
            assert(frame_models(out@) =~= seq![goaway(ErrorCode::FrameSizeError, sid)]);
        }
        let ghost out4 = frame_models(out@);
        // Flow control: a new initial window size shifts the stream windows.
        let shifts = self.settings_windows(frame, &ids);
        let ghost out5 = frame_models(shifts@);
        let mut shifts = shifts;
        out.append(&mut shifts);
        assert(frame_models(out@) =~= out4 + out5);
        let ghost c5 = self@;
        match self.handle_frame(frame) {
            Err(e) => {
                let ghost prev = frame_models(out@);
                out.push(Connection::close_with_error(e, sid));
                assert(frame_models(out@) =~= prev + seq![goaway(e, sid)]);
                return (out, true);
            },
            Ok(answer) => {
                let ghost prev = frame_models(out@);
                match answer {
                    Some(f) => {
                        let ghost g = f@;
                        out.push(f);
                        assert(frame_models(out@) =~= prev + seq![g]);
                    },
                    None => {
                        assert(frame_models(out@) =~= prev + Seq::<FrameModel>::empty());
                    },
                }
            },
        }
        let ghost out6 = frame_models(out@);
        assert(windows_above(self@.streams, i64::MIN + 0x1_0000_0000)) by {
            assert(self@.streams == c5.streams);
        }
        // Flow control: WINDOW_UPDATE
        let (updates, stop7) = self.window_update_step(frame);
        let ghost out7 = frame_models(updates@);
        let mut updates = updates;
        out.append(&mut updates);
        assert(frame_models(out@) =~= out6 + out7);
        (out, stop7)
    }
}


impl Connection {
    /// Whether every stream's window is at least the floor that
    /// `receive_frame` starts from.
    pub fn windows_in_range(&self) -> (r: bool)
        ensures
            r == windows_above(self@.streams, window_floor()),
    {
        let ids = stream_ids(&self.streams);
        let mut i: usize = 0;
        while i < ids.len()
            invariant
                0 <= i <= ids@.len(),
                ids@.to_set() == self.streams@.dom(),
                forall|j: int| 0 <= j < i ==> (#[trigger] self@.streams[ids@[j]]).window.available_size >= window_floor(),
            decreases ids@.len() - i,
        {
            let id = ids[i];
            assert(ids@.to_set().contains(id));
            match self.streams.get(&id) {
                Some(stream) => {
                    if stream.window_size() < -0x4000_0000_0000_0000i64 {
                        assert(self@.streams.contains_key(id));
                        return false;
                    }
                },
                None => {},
            }
            i = i + 1;
        }
        proof {
            assert forall|k: u32| #[trigger] self@.streams.contains_key(k) implies
                self@.streams[k].window.available_size >= window_floor() by {
                assert(ids@.to_set().contains(k));
                assert(ids@.contains(k));
                let j = choose|j: int| 0 <= j < ids@.len() && ids@[j] == k;
                assert(self@.streams[ids@[j]].window.available_size >= window_floor());
            }
        }
        true
    }

    /// Hands a frame to its stream (RFC 7540 section 5.1) and counts the
    /// active streams (section 5.1.2). Returns the frames to send, the request
    /// that became complete, and whether the reading loop ends: on a stream
    /// error, or when the active streams exceed the server's
    /// SETTINGS_MAX_CONCURRENT_STREAMS.
    pub fn deliver_frame(&mut self, frame: Frame) -> (r: (Vec<Frame>, Option<HTTPRequest>, bool))
        requires
            conn_wf(old(self)@),
            old(self)@.streams.contains_key(frame@.header.stream_id),
        ensures
            conn_wf(final(self)@),
            final(self)@ == deliver(old(self)@, frame@).0,
            frame_models(r.0@) == deliver(old(self)@, frame@).1,
            r.2 == deliver(old(self)@, frame@).3,
            match (r.1, deliver(old(self)@, frame@).2) {
                (Some(req), Some(q)) => req@ == q,
                (None, None) => true,
                _ => false,
            },
    {
        let sid = frame.header.stream_id;
        let ghost fm = frame@;
        let ghost m = self@.streams;
        let ghost m_raw = self.streams@;
        let mut out: Vec<Frame> = Vec::new();
        assert(frame_models(out@) =~= Seq::<FrameModel>::empty());
        let mut stream = match self.streams.remove(&sid) {
            Some(s) => s,
            None => {
                return (out, None, true);
            },
        };
        assert(stream@ == m[sid]);
        let active_before = stream.state.is_active();
        let received = stream.recv(frame);
        let active_after = stream.state.is_active();
        self.streams.insert(sid, stream);
        assert(self.streams@ == m_raw.insert(sid, stream));
        assert(self@.streams =~= m.insert(sid, stream@));
        proof {
            if stream@ == m[sid] {
                assert(self@.streams =~= m);
            }
        }
        match received {
            Err(e) => {
                // A stream error closes the connection.
                out.push(Connection::close_with_error(e, sid));
                assert(frame_models(out@) =~= seq![goaway(e, sid)]);
                (out, None, true)
            },
            Ok(req) => {
                let count = self.concurrent_stream_count;
                let count = if active_before && !active_after {
                    if count == 0 { u32::MAX } else { count - 1 }
                } else if !active_before && active_after {
                    if count == u32::MAX { 0 } else { count + 1 }
                } else {
                    count
                };
                self.concurrent_stream_count = count;
                let max_concurrent_streams = match self.server_settings.get(SettingsIdentifier::MaxConcurrentStreams) {
                    Some(v) => v,
                    None => u32::MAX,
                };
                if count > max_concurrent_streams {
                    out.push(Connection::close_with_error(ErrorCode::ProtocolError, sid));
                    assert(frame_models(out@) =~= seq![goaway(ErrorCode::ProtocolError, sid)]);
                    (out, req, true)
                } else {
                    (out, req, false)
                }
            },
        }
    }
}


/// The streams after a frame is sent: the frame moves its stream's state
/// machine, if the stream exists.
pub open spec fn record_send(streams: Map<u32, StreamModel>, f: FrameModel) -> Map<u32, StreamModel> {
    let sid = f.header.stream_id;
    if streams.contains_key(sid) {
        streams.insert(sid, StreamModel { state: send_transition(streams[sid].state, f), ..streams[sid] })
    } else {
        streams
    }
}

impl Connection {
    /// Records a frame being sent on its stream's state machine (a GOAWAY, or a
    /// frame for a stream that is gone, touches none) and gives the frame's
    /// encoding.
    pub fn send_frame(&mut self, frame: Frame) -> (r: Result<Bytes, ()>)
        requires
            conn_wf(old(self)@),
            frame@.payload.serializable(),
            FRAME_HDR_SIZE + frame.header.length <= usize::MAX,
            FRAME_HDR_SIZE + body_bytes(frame@.payload).len() <= usize::MAX,
        ensures
            conn_wf(final(self)@),
            final(self)@ == (ConnModel { streams: record_send(old(self)@.streams, frame@), ..old(self)@ }),
            r matches Ok(b) && bytes_view(b) == frame_bytes(frame@),
    {
        let sid = frame.header.stream_id;
        let ghost m = self@.streams;
        let ghost m_raw = self.streams@;
        match self.streams.remove(&sid) {
            Some(mut stream) => {
                stream.send(&frame);
                self.streams.insert(sid, stream);
                assert(self.streams@ == m_raw.insert(sid, stream));
                assert(self@.streams =~= record_send(m, frame@));
            },
            None => {
                assert(self.streams@ =~= m_raw);
            },
        }
        match frame.try_into_bytes() {
            Ok(b) => Ok(b),
            Err(_) => Err(()),
        }
    }
}


// ---------------------------------------------------------------------------
// Laws of the connection's frames.

/// The header block fragment that a HEADERS or CONTINUATION frame carries.
pub open spec fn fragment(f: FrameModel) -> Seq<u8> {
    match f.payload {
        BodyModel::Headers { hdr_block_frag, .. } => hdr_block_frag,
        BodyModel::Continuation { hdr_block_frag } => hdr_block_frag,
        _ => Seq::empty(),
    }
}

/// The fragments of a sequence of frames, in order.
pub open spec fn fragments(fs: Seq<FrameModel>) -> Seq<u8>
    decreases fs.len(),
{
    if fs.len() == 0 {
        Seq::empty()
    } else {
        fragment(fs[0]) + fragments(fs.drop_first())
    }
}

proof fn lemma_continuation_frames_carry(rest: Seq<u8>, part: nat, sid: u32)
    requires
        part > 0,
    ensures
        fragments(continuation_frames(rest, part, sid)) == rest,
        forall|i: int| 0 <= i < continuation_frames(rest, part, sid).len() ==> {
            let f = #[trigger] continuation_frames(rest, part, sid)[i];
            &&& f.payload is Continuation
            &&& 0 < fragment(f).len() <= part
            &&& f.header.stream_id == sid
            &&& (has_flag(f.header.flags, CONTINUATION_END_HEADERS) <==> i == continuation_frames(rest, part, sid).len() - 1)
            &&& !has_flag(f.header.flags, HEADERS_END_STREAM)
        },
        continuation_frames(rest, part, sid).len() == 0 <==> rest.len() == 0,
    decreases rest.len(),
{
    lemma_flag_bits();
    let fs = continuation_frames(rest, part, sid);
    if rest.len() == 0 {
        assert(fragments(fs) =~= rest);
    } else {
        let take = if rest.len() < part { rest.len() } else { part };
        lemma_continuation_frames_carry(rest.skip(take as int), part, sid);
        let tail = continuation_frames(rest.skip(take as int), part, sid);
        assert(fs.drop_first() =~= tail);
        assert(rest.take(take as int) + rest.skip(take as int) =~= rest);
        assert forall|i: int| 0 <= i < fs.len() implies {
            let f = #[trigger] fs[i];
            &&& f.payload is Continuation
            &&& 0 < fragment(f).len() <= part
            &&& f.header.stream_id == sid
            &&& (has_flag(f.header.flags, CONTINUATION_END_HEADERS) <==> i == fs.len() - 1)
            &&& !has_flag(f.header.flags, HEADERS_END_STREAM)
        } by {
            if i > 0 {
                assert(fs[i] == tail[i - 1]);
            }
        }
    }
}

/// The flag bits that header frames combine.
proof fn lemma_flag_bits()
    ensures
        !has_flag(0, 4), !has_flag(1, 4), has_flag(4, 4), has_flag(5, 4),
        !has_flag(0, 1), has_flag(1, 1), !has_flag(4, 1), has_flag(5, 1),
{
    assert(0u8 & 4u8 != 4u8 && 1u8 & 4u8 != 4u8 && 4u8 & 4u8 == 4u8 && 5u8 & 4u8 == 4u8) by (bit_vector);
    assert(0u8 & 1u8 != 1u8 && 1u8 & 1u8 == 1u8 && 4u8 & 1u8 != 1u8 && 5u8 & 1u8 == 1u8) by (bit_vector);
}

/// The frames of a response's header block carry the whole block, in order:
/// a HEADERS frame, then CONTINUATION frames, all on the response's stream,
/// each with at least one and at most `part` bytes of the block. Only the last
/// frame ends the header block, and only the HEADERS frame may end the stream,
/// which it does exactly when there is no body.
pub proof fn lemma_header_frames_carry(hb: Seq<u8>, part: nat, has_body: bool, sid: u32)
    requires
        part > 0,
    ensures
        fragments(header_frames(hb, part, has_body, sid)) == hb,
        forall|i: int| 0 <= i < header_frames(hb, part, has_body, sid).len() ==> {
            let f = #[trigger] header_frames(hb, part, has_body, sid)[i];
            &&& (i == 0 <==> f.payload is Headers)
            &&& (i > 0 <==> f.payload is Continuation)
            &&& 0 < fragment(f).len() <= part
            &&& f.header.stream_id == sid
            &&& (has_flag(f.header.flags, HEADERS_END_HEADERS) <==> i == header_frames(hb, part, has_body, sid).len() - 1)
            &&& (has_flag(f.header.flags, HEADERS_END_STREAM) <==> (i == 0 && !has_body))
        },
{
    lemma_flag_bits();
    let fs = header_frames(hb, part, has_body, sid);
    if hb.len() == 0 {
        assert(fragments(fs) =~= hb);
    } else {
        let take = if hb.len() < part { hb.len() } else { part };
        lemma_continuation_frames_carry(hb.skip(take as int), part, sid);
        let tail = continuation_frames(hb.skip(take as int), part, sid);
        assert(fs.drop_first() =~= tail);
        assert(hb.take(take as int) + hb.skip(take as int) =~= hb);
        assert forall|i: int| 0 <= i < fs.len() implies {
            let f = #[trigger] fs[i];
            &&& (i == 0 <==> f.payload is Headers)
            &&& (i > 0 <==> f.payload is Continuation)
            &&& 0 < fragment(f).len() <= part
            &&& f.header.stream_id == sid
            &&& (has_flag(f.header.flags, HEADERS_END_HEADERS) <==> i == fs.len() - 1)
            &&& (has_flag(f.header.flags, HEADERS_END_STREAM) <==> (i == 0 && !has_body))
        } by {
            if i > 0 {
                assert(fs[i] == tail[i - 1]);
            }
        }
    }
}

/// What a window lets out never exceeds it: the DATA frames carry the first
/// bytes of the pending data, as many as the window allows; the window
/// shrinks by exactly that many, and the rest stays pending.
pub proof fn lemma_window_drained(w: WindowModel, max: nat, sid: u32)
    requires
        max > 0,
    ensures
        ({
            let (w2, fs) = window_drained(w, max, sid);
            if w.available_size <= 0 || w.data_buffer is None {
                w2 == w && fs.len() == 0
            } else {
                let buf = w.data_buffer.unwrap();
                let n = frames_data(fs).len();
                &&& n <= w.available_size
                &&& frames_data(fs) == buf.take(n as int)
                &&& (n == buf.len() || n == w.available_size)
                &&& w2.available_size == w.available_size - n
                &&& w2.data_buffer == (if n == buf.len() { None } else { Some(buf.skip(n as int)) })
            }
        }),
{
    if w.available_size > 0 && w.data_buffer is Some {
        let buf = w.data_buffer.unwrap();
        let n = sendable(buf, w.available_size);
        lemma_data_frames_carry(buf, n, max, sid);
    }
}

/// The reading side opens only client streams: after a received frame the
/// highest stream identifier has not gone down, and a stream that was not
/// there before is the frame's own, with an odd identifier above the
/// previous highest.
pub proof fn lemma_rx_opens_client_streams(c: ConnModel, f: FrameModel, unknown_frame: bool, order: Seq<u32>)
    ensures
        rx_checks(c, f, unknown_frame, order).0.max_stream_id >= c.max_stream_id,
        forall|k: u32| #[trigger] rx_checks(c, f, unknown_frame, order).0.streams.contains_key(k) && !c.streams.contains_key(k)
            ==> k == f.header.stream_id && k % 2 == 1 && k > c.max_stream_id,
{
    let (c2, out2, stop2) = open_step(c, f);
    assert forall|k: u32| #[trigger] c2.streams.contains_key(k) && !c.streams.contains_key(k)
        implies k == f.header.stream_id && k % 2 == 1 && k > c.max_stream_id by {
        if f.header.stream_id > c.max_stream_id && f.header.stream_id % 2 == 1 && k != f.header.stream_id {
            assert(drop_idle(c.streams).contains_key(k));
        }
    }
    if !stop2 && !continuation_step(c2, f, unknown_frame) {
        let (streams5, out5) = settings_step(c2, f, order);
        lemma_settings_step_keys(c2, f, order);
        let c5 = ConnModel { streams: streams5, ..c2 };
        let c6 = ConnModel { peer_settings: frame_check(c5, f).0, ..c5 };
        lemma_window_step_keys(c6, f);
    }
}

proof fn lemma_shift_streams_keys(streams: Map<u32, StreamModel>, order: Seq<u32>, n: nat, delta: int, max: nat, sid: u32)
    ensures
        shift_streams(streams, order, n, delta, max, sid).0.dom() == streams.dom(),
    decreases n,
{
    if n > 0 {
        lemma_shift_streams_keys(streams, order, (n - 1) as nat, delta, max, sid);
        let (m, out, stopped) = shift_streams(streams, order, (n - 1) as nat, delta, max, sid);
        let k = order[n - 1];
        if !stopped && m.contains_key(k) && m[k].state.spec_is_active() {
            if let Some((s2, dfs)) = shifted(m[k], delta, max) {
                assert(m.insert(k, s2).dom() =~= m.dom());
            }
        }
    }
}

proof fn lemma_settings_shift_keys(streams: Map<u32, StreamModel>, ps: Seq<SettingParam>, n: nat, initial: u32,
    order: Seq<u32>, max: nat, sid: u32)
    ensures
        settings_shift(streams, ps, n, initial, order, max, sid).0.dom() == streams.dom(),
    decreases n,
{
    if n > 0 {
        lemma_settings_shift_keys(streams, ps, (n - 1) as nat, initial, order, max, sid);
        let (m, out) = settings_shift(streams, ps, (n - 1) as nat, initial, order, max, sid);
        let p = ps[n - 1];
        if p.identifier == SettingsIdentifier::InitialWindowSize {
            lemma_shift_streams_keys(m, order, order.len(), p.value - initial, max, sid);
        }
    }
}

proof fn lemma_settings_step_keys(c: ConnModel, f: FrameModel, order: Seq<u32>)
    ensures
        settings_step(c, f, order).0.dom() == c.streams.dom(),
{
    if let BodyModel::Settings(ps) = f.payload {
        lemma_settings_shift_keys(c.streams, ps, ps.len(), c.peer_settings[4], order, c.peer_settings[5] as nat, f.header.stream_id);
    }
}

proof fn lemma_window_step_keys(c: ConnModel, f: FrameModel)
    ensures
        window_step(c, f).0.streams.dom() == c.streams.dom(),
        window_step(c, f).0.max_stream_id == c.max_stream_id,
{
    let sid = f.header.stream_id;
    if let BodyModel::WindowUpdate { window_size_increment } = f.payload {
        if sid != 0 && c.streams.contains_key(sid) {
            if let Some((s2, dfs)) = shifted(c.streams[sid], window_size_increment as int, c.peer_settings[5] as nat) {
                assert(c.streams.insert(sid, s2).dom() =~= c.streams.dom());
            }
        }
    }
}


/// Whether the frames end with a GOAWAY.
pub open spec fn ends_with_goaway(out: Seq<FrameModel>) -> bool {
    out.len() > 0 && out.last().payload is GoAway
}

/// The reading loop never ends a connection silently: whenever handling a
/// received frame ends it, the last frame it sends is a GOAWAY.
pub proof fn lemma_stop_sends_goaway(c: ConnModel, f: FrameModel, unknown_frame: bool, order: Seq<u32>)
    ensures
        rx_checks(c, f, unknown_frame, order).2 ==> ends_with_goaway(rx_checks(c, f, unknown_frame, order).1),
        deliver(c, f).3 ==> ends_with_goaway(deliver(c, f).1),
{
    let sid = f.header.stream_id;
    let (c2, out2, stop2) = open_step(c, f);
    if !stop2 && !continuation_step(c2, f, unknown_frame) {
        let out4 = if f.header.length > c2.peer_settings[5] { seq![goaway(ErrorCode::FrameSizeError, sid)] } else { Seq::empty() };
        let (streams5, out5) = settings_step(c2, f, order);
        let c5 = ConnModel { streams: streams5, ..c2 };
        let (peer6, answer) = frame_check(c5, f);
        let c6 = ConnModel { peer_settings: peer6, ..c5 };
        match answer {
            Err(e) => {
                let out = out4 + out5 + seq![goaway(e, sid)];
                assert(out.last() == goaway(e, sid));
            },
            Ok(a) => {
                let out6 = out4 + out5 + (match a { Some(g) => seq![g], None => Seq::empty() });
                let (c7, out7, stop7) = window_step(c6, f);
                if stop7 {
                    assert(out7 == seq![goaway(ErrorCode::FlowControlError, sid)]);
                    assert((out6 + out7).last() == goaway(ErrorCode::FlowControlError, sid));
                }
            },
        }
    }
}


/// A DATA frame is accepted exactly on a stream that can still receive: one
/// that exists and is open or half-closed (remote) (RFC 7540 section 6.1).
/// A well-formed DATA frame on any other stream is answered STREAM_CLOSED;
/// one on stream 0, or with no room for its padding, is a protocol error.
/// Checking a DATA frame never changes the peer's settings.
pub proof fn lemma_data_accepted_on_receiving_streams(c: ConnModel, f: FrameModel)
    requires
        f.payload is Data,
    ensures
        frame_check(c, f).0 == c.peer_settings,
        ({
            let sid = f.header.stream_id;
            let well_formed = sid != 0 && f.header.length > pad_or_zero(f.payload->Data_pad_length);
            let receiving = c.streams.contains_key(sid)
                && (c.streams[sid].state == StreamState::Open || c.streams[sid].state == StreamState::HalfClosedRemote);
            &&& (well_formed && receiving) ==> frame_check(c, f).1 == Ok::<Option<FrameModel>, ErrorCode>(None)
            &&& (well_formed && !receiving) ==> frame_check(c, f).1 == Err::<Option<FrameModel>, ErrorCode>(ErrorCode::StreamClosed)
            &&& !well_formed ==> frame_check(c, f).1 == Err::<Option<FrameModel>, ErrorCode>(ErrorCode::ProtocolError)
        }),
{
}


/// A PING without flags on stream 0, eight octets long, is answered with a
/// PING on stream 0 that carries the same data with the ACK flag; a PING
/// acknowledgement is answered with nothing; a PING on another stream is a
/// protocol error and one of another length a frame-size error
/// (RFC 7540 section 6.7).
pub proof fn lemma_ping_answered_with_ack(c: ConnModel, f: FrameModel)
    requires
        f.payload is Ping,
    ensures
        frame_check(c, f).0 == c.peer_settings,
        f.header.stream_id == 0 && f.header.length == 8 && f.header.flags == 0 ==> (frame_check(c, f).1 matches Ok(Some(a))
            && a.payload == f.payload && a.header.frame_type == 0x6 && a.header.flags == 0x1
            && a.header.stream_id == 0 && a.header.length == 8),
        f.header.stream_id == 0 && f.header.length == 8 && f.header.flags == 0x1 ==>
            frame_check(c, f).1 == Ok::<Option<FrameModel>, ErrorCode>(None),
        f.header.stream_id != 0 ==> frame_check(c, f).1 == Err::<Option<FrameModel>, ErrorCode>(ErrorCode::ProtocolError),
        f.header.stream_id == 0 && f.header.length != 8 ==>
            frame_check(c, f).1 == Err::<Option<FrameModel>, ErrorCode>(ErrorCode::FrameSizeError),
{
}

/// SETTINGS belong to the connection: on another stream they are a protocol
/// error. An acknowledgement must be empty and is answered with nothing; a
/// SETTINGS frame whose parameters are accepted is answered with an empty
/// SETTINGS acknowledgement on stream 0 (RFC 7540 section 6.5).
pub proof fn lemma_settings_answered_with_ack(c: ConnModel, f: FrameModel)
    requires
        f.payload is Settings,
    ensures
        f.header.stream_id != 0 ==> frame_check(c, f) == (c.peer_settings, Err::<Option<FrameModel>, ErrorCode>(ErrorCode::ProtocolError)),
        f.header.stream_id == 0 && f.header.flags == 0x1 && f.header.length == 0 ==>
            frame_check(c, f) == (c.peer_settings, Ok::<Option<FrameModel>, ErrorCode>(None)),
        f.header.stream_id == 0 && f.header.flags == 0x1 && f.header.length != 0 ==>
            frame_check(c, f).1 == Err::<Option<FrameModel>, ErrorCode>(ErrorCode::FrameSizeError),
        frame_check(c, f).1 matches Ok(Some(a)) ==> a.payload == BodyModel::Settings(Seq::empty())
            && a.header.frame_type == 0x4 && a.header.flags == 0x1 && a.header.stream_id == 0 && a.header.length == 0,
        f.header.stream_id == 0 && f.header.flags == 0 && f.header.length % 6 == 0
            && apply_params(c.peer_settings, f.payload->Settings_0).1 is Ok ==> frame_check(c, f).1 is Ok,
{
    assert(0x1u8 & 0x1u8 == 0x1u8) by (bit_vector);
    assert(0x0u8 & 0x1u8 != 0x1u8) by (bit_vector);
    if frame_check(c, f).1 matches Ok(Some(a)) {
        super::frames::lemma_settings_bytes_len(Seq::<super::settings::SettingParam>::empty());
    }
}

/// Frames that belong to a stream are a protocol error on stream 0; GOAWAY
/// always ends the connection (with NO_ERROR); a WINDOW_UPDATE of four octets
/// is accepted exactly when its increment is not zero; a PUSH_PROMISE from a
/// client is a protocol error (RFC 7540 sections 6.1 to 6.10, 8.2).
pub proof fn lemma_connection_level_checks(c: ConnModel, f: FrameModel)
    ensures
        f.header.stream_id == 0 && (f.payload is Data || f.payload is Headers || f.payload is Priority
            || f.payload is Continuation) ==> frame_check(c, f).1 == Err::<Option<FrameModel>, ErrorCode>(ErrorCode::ProtocolError),
        f.payload is GoAway ==> frame_check(c, f).1 == Err::<Option<FrameModel>, ErrorCode>(ErrorCode::NoError),
        f.payload is PushPromise ==> frame_check(c, f).1 == Err::<Option<FrameModel>, ErrorCode>(ErrorCode::ProtocolError),
        f.payload is WindowUpdate && f.header.length == 4 ==> (frame_check(c, f).1 == Ok::<Option<FrameModel>, ErrorCode>(None)
            <==> f.payload->window_size_increment != 0),
        f.payload is WindowUpdate && f.header.length == 4 && f.payload->window_size_increment == 0 ==>
            frame_check(c, f).1 == Err::<Option<FrameModel>, ErrorCode>(ErrorCode::ProtocolError),
        !(f.payload is Settings) ==> frame_check(c, f).0 == c.peer_settings,
{
}

} // verus!
