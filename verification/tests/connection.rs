use bytes::Bytes;
use simple_http::http::{HTTPResponse, HeaderVal, HeadersMap};
use simple_http::http2::connection::{header_block_frames, Connection, ReadStep};
use simple_http::http2::frames::error::{BodyDeserializationError, DeserializationError, HeaderDeserializationError};
use simple_http::http2::frames::{
    ErrorCode, Frame, FrameBody, CONTINUATION_END_HEADERS, HEADERS_END_HEADERS, HEADERS_END_STREAM, PING_ACK, SETTINGS_ACK,
};
use simple_http::http2::server::server_settings;
use simple_http::http2::settings::{SettingParam, SettingsIdentifier};
use simple_http::http2::stream::{compress_header, decompress_header, StreamState};

fn connection(peer: Vec<SettingParam>) -> Connection {
    Connection::new(server_settings(), peer, 7)
}

fn request_block() -> Bytes {
    let mut hdrs = HeadersMap::new();
    hdrs.insert(String::from(":method"), HeaderVal::Single(String::from("GET")));
    hdrs.insert(String::from(":path"), HeaderVal::Single(String::from("/index.html")));
    hdrs.insert(String::from(":scheme"), HeaderVal::Single(String::from("http")));
    compress_header(&hdrs)
}

fn goaway_of(f: &Frame) -> Option<(u32, ErrorCode)> {
    match &f.payload {
        FrameBody::GoAway { last_stream_id, error_code, .. } => Some((*last_stream_id, *error_code)),
        _ => None,
    }
}

fn headers(sid: u32, flags: u8, block: Bytes) -> Frame {
    Frame::new(sid, flags, FrameBody::Headers { pad_length: None, priority: None, hdr_block_frag: block })
}

#[test]
fn new_connection_takes_the_peer_settings() {
    let c = connection(vec![SettingParam { identifier: SettingsIdentifier::InitialWindowSize, value: 100 }]);
    assert_eq!(c.peer_settings.get(SettingsIdentifier::InitialWindowSize), Some(100));
    assert_eq!(c.server_settings.get(SettingsIdentifier::EnablePush), Some(0));
    assert_eq!(c.get_window_size(), 65535);
    assert_eq!(c.max_stream_id, 0);
    assert_eq!(c.concurrent_stream_count, 1);
    assert_eq!(c.id, 7);
}

#[test]
fn ping_is_answered() {
    let mut c = connection(vec![]);
    let ping = Frame::new(0, 0, FrameBody::Ping { data: Bytes::from(vec![9; 8]) });
    let (out, stop) = c.receive_frame(&ping, false);
    assert!(!stop);
    assert_eq!(out.len(), 1);
    assert_eq!(out[0].header.flags, PING_ACK);
    match &out[0].payload {
        FrameBody::Ping { data } => assert_eq!(data, &Bytes::from(vec![9; 8])),
        _ => panic!("expected PING"),
    }
    // A PING acknowledgement asks for nothing.
    let ack = Frame::new(0, PING_ACK, FrameBody::Ping { data: Bytes::from(vec![9; 8]) });
    let (out, stop) = c.receive_frame(&ack, false);
    assert!(!stop);
    assert!(out.is_empty());
}

#[test]
fn settings_are_applied_and_acknowledged() {
    let mut c = connection(vec![]);
    let f = Frame::new(
        0,
        0,
        FrameBody::Settings(vec![SettingParam { identifier: SettingsIdentifier::MaxFrameSize, value: 20000 }]),
    );
    let (out, stop) = c.receive_frame(&f, false);
    assert!(!stop);
    assert_eq!(out.len(), 1);
    assert_eq!(out[0].header.flags, SETTINGS_ACK);
    assert_eq!(c.peer_settings.get(SettingsIdentifier::MaxFrameSize), Some(20000));
}

#[test]
fn illegal_setting_closes_the_connection() {
    let mut c = connection(vec![]);
    let f = Frame::new(
        0,
        0,
        FrameBody::Settings(vec![SettingParam { identifier: SettingsIdentifier::InitialWindowSize, value: 0x8000_0000 }]),
    );
    let (out, stop) = c.receive_frame(&f, false);
    assert!(stop);
    assert_eq!(goaway_of(out.last().unwrap()), Some((0, ErrorCode::FlowControlError)));
}

#[test]
fn even_stream_is_refused() {
    let mut c = connection(vec![]);
    let (out, stop) = c.receive_frame(&headers(2, HEADERS_END_HEADERS, request_block()), false);
    assert!(stop);
    assert_eq!(out.len(), 1);
    assert_eq!(goaway_of(&out[0]), Some((2, ErrorCode::ProtocolError)));
    assert!(!c.has_stream(2));
}

#[test]
fn a_request_is_received_and_answered() {
    let mut c = connection(vec![]);
    let f = headers(1, HEADERS_END_HEADERS | HEADERS_END_STREAM, request_block());
    let (out, stop) = c.receive_frame(&f, false);
    assert!(!stop && out.is_empty());
    assert!(c.has_stream(1));
    assert_eq!(c.max_stream_id, 1);
    let (out, req, stop) = c.deliver_frame(f);
    assert!(!stop && out.is_empty());
    let req = req.unwrap();
    assert_eq!(req.method, "GET");
    assert_eq!(req.path, "/index.html");
    assert_eq!(c.concurrent_stream_count, 2);
    assert_eq!(c.streams.get(&1).unwrap().state, StreamState::HalfClosedRemote);

    let mut resp = HTTPResponse::default();
    resp.set("X-Custom", "1");
    resp.text(String::from("hello"));
    let frames = c.respond(1, resp);
    assert_eq!(frames.len(), 2);
    assert_eq!(frames[0].header.stream_id, 1);
    assert_eq!(frames[0].header.flags, HEADERS_END_HEADERS);
    match &frames[0].payload {
        FrameBody::Headers { hdr_block_frag, .. } => {
            let h = decompress_header(hdr_block_frag).unwrap();
            assert_eq!(h.get(":status"), Some(&HeaderVal::Single(String::from("200"))));
            // Field names go out in lower case.
            assert_eq!(h.get("x-custom"), Some(&HeaderVal::Single(String::from("1"))));
            assert_eq!(h.get("content-length"), Some(&HeaderVal::Single(String::from("5"))));
        },
        _ => panic!("expected HEADERS"),
    }
    match &frames[1].payload {
        FrameBody::Data { data, .. } => assert_eq!(data, &Bytes::from("hello")),
        _ => panic!("expected DATA"),
    }
    // Sending moves the stream's state machine.
    let mut frames = frames;
    let data = frames.pop().unwrap();
    let head = frames.pop().unwrap();
    let head_bytes = c.send_frame(head).unwrap();
    assert_eq!(head_bytes[3], 1);
    assert_eq!(c.streams.get(&1).unwrap().state, StreamState::HalfClosedRemote);
    c.send_frame(data).unwrap();
    assert_eq!(c.streams.get(&1).unwrap().state, StreamState::Closed);
}

#[test]
fn response_without_body_ends_the_stream() {
    let mut c = connection(vec![]);
    let f = headers(1, HEADERS_END_HEADERS | HEADERS_END_STREAM, request_block());
    c.receive_frame(&f, false);
    c.deliver_frame(f);
    let mut resp = HTTPResponse::default();
    resp.status(simple_http::http::ResponseStatus::NoContent);
    let frames = c.respond(1, resp);
    assert_eq!(frames.len(), 1);
    assert_eq!(frames[0].header.flags, HEADERS_END_STREAM | HEADERS_END_HEADERS);
}

#[test]
fn response_on_unknown_stream_sends_nothing() {
    let mut c = connection(vec![]);
    assert!(c.respond(5, HTTPResponse::default()).is_empty());
}

#[test]
fn header_block_is_cut_into_continuations() {
    let mut c = connection(vec![SettingParam { identifier: SettingsIdentifier::HeaderTableSize, value: 4 }]);
    let f = headers(1, HEADERS_END_HEADERS | HEADERS_END_STREAM, request_block());
    c.receive_frame(&f, false);
    c.deliver_frame(f);
    let mut resp = HTTPResponse::default();
    resp.set("server", "simple");
    let mut whole = Vec::new();
    let frames = c.make_header_frames(1, &mut resp).unwrap();
    assert!(frames.len() > 1);
    for (i, f) in frames.iter().enumerate() {
        let frag = match &f.payload {
            FrameBody::Headers { hdr_block_frag, .. } => {
                assert_eq!(i, 0);
                hdr_block_frag
            },
            FrameBody::Continuation { hdr_block_frag } => {
                assert!(i > 0);
                hdr_block_frag
            },
            _ => panic!("expected header frames"),
        };
        assert!(frag.len() <= 4);
        whole.extend_from_slice(frag);
        // No body: the HEADERS frame ends the stream; the last frame ends
        // the header block.
        if i + 1 == frames.len() {
            assert_eq!(f.header.flags, CONTINUATION_END_HEADERS);
        } else if i == 0 {
            assert_eq!(f.header.flags, HEADERS_END_STREAM);
        } else {
            assert_eq!(f.header.flags, 0);
        }
    }
    assert_eq!(Bytes::from(whole), compress_header(&resp.headers));
}

#[test]
fn header_list_over_the_peer_limit_is_refused() {
    let mut c = connection(vec![SettingParam { identifier: SettingsIdentifier::MaxHeaderListSize, value: 10 }]);
    let f = headers(1, HEADERS_END_HEADERS | HEADERS_END_STREAM, request_block());
    c.receive_frame(&f, false);
    c.deliver_frame(f);
    let mut resp = HTTPResponse::default();
    assert!(c.make_header_frames(1, &mut resp).is_err());
}

#[test]
fn frames_between_headers_and_continuation_close_the_connection() {
    let mut c = connection(vec![]);
    let f = headers(1, 0, request_block());
    c.receive_frame(&f, false);
    c.deliver_frame(f);
    let ping = Frame::new(0, 0, FrameBody::Ping { data: Bytes::from(vec![0; 8]) });
    let (out, stop) = c.receive_frame(&ping, false);
    assert!(stop);
    assert_eq!(goaway_of(&out[0]), Some((0, ErrorCode::ProtocolError)));
}

#[test]
fn unknown_frame_inside_a_header_block_closes_the_connection() {
    let mut c = connection(vec![]);
    let f = headers(1, 0, request_block());
    c.receive_frame(&f, false);
    c.deliver_frame(f);
    let cont = Frame::new(1, 0, FrameBody::Continuation { hdr_block_frag: Bytes::new() });
    let (out, stop) = c.receive_frame(&cont, false);
    assert!(!stop && out.is_empty());
    let (out, stop) = c.receive_frame(&cont, true);
    assert!(stop);
    assert_eq!(goaway_of(&out[0]), Some((1, ErrorCode::ProtocolError)));
}

#[test]
fn connection_window_overflow_closes_the_connection() {
    let mut c = connection(vec![]);
    let w = Frame::new(0, 0, FrameBody::WindowUpdate { window_size_increment: 1000 });
    let (out, stop) = c.receive_frame(&w, false);
    assert!(!stop && out.is_empty());
    assert_eq!(c.get_window_size(), 66535);
    let w = Frame::new(0, 0, FrameBody::WindowUpdate { window_size_increment: 0x7fff_0000 });
    let (out, stop) = c.receive_frame(&w, false);
    assert!(stop);
    assert_eq!(goaway_of(&out[0]), Some((0, ErrorCode::FlowControlError)));
    assert_eq!(c.get_window_size(), 66535);
}

#[test]
fn zero_window_update_is_a_protocol_error() {
    let mut c = connection(vec![]);
    let w = Frame::new(0, 0, FrameBody::WindowUpdate { window_size_increment: 0 });
    let (out, stop) = c.receive_frame(&w, false);
    assert!(stop);
    assert_eq!(goaway_of(&out[0]), Some((0, ErrorCode::ProtocolError)));
}

#[test]
fn stream_window_update_lets_data_out_and_new_initial_size_shifts_windows() {
    let mut c = connection(vec![SettingParam { identifier: SettingsIdentifier::InitialWindowSize, value: 2 }]);
    let f = headers(1, HEADERS_END_HEADERS | HEADERS_END_STREAM, request_block());
    c.receive_frame(&f, false);
    c.deliver_frame(f);
    let mut resp = HTTPResponse::default();
    resp.text(String::from("abcdef"));
    let frames = c.respond(1, resp);
    assert_eq!(frames.len(), 2);
    match &frames[1].payload {
        FrameBody::Data { data, .. } => assert_eq!(data, &Bytes::from("ab")),
        _ => panic!("expected DATA"),
    }
    // WINDOW_UPDATE on the stream lets two more bytes out.
    let w = Frame::new(1, 0, FrameBody::WindowUpdate { window_size_increment: 2 });
    let (out, stop) = c.receive_frame(&w, false);
    assert!(!stop);
    assert_eq!(out.len(), 1);
    match &out[0].payload {
        FrameBody::Data { data, .. } => assert_eq!(data, &Bytes::from("cd")),
        _ => panic!("expected DATA"),
    }
    // A larger initial window size grows the open stream's window by the difference.
    let s = Frame::new(
        0,
        0,
        FrameBody::Settings(vec![SettingParam { identifier: SettingsIdentifier::InitialWindowSize, value: 12 }]),
    );
    let (out, stop) = c.receive_frame(&s, false);
    assert!(!stop);
    assert_eq!(out.len(), 2);
    match &out[0].payload {
        FrameBody::Data { data, .. } => assert_eq!(data, &Bytes::from("ef")),
        _ => panic!("expected DATA"),
    }
    assert_eq!(out[1].header.flags, SETTINGS_ACK);
    assert_eq!(c.streams.get(&1).unwrap().window_size(), 8);
}

#[test]
fn stream_window_overflow_resets_the_stream() {
    let mut c = connection(vec![]);
    let f = headers(1, HEADERS_END_HEADERS | HEADERS_END_STREAM, request_block());
    c.receive_frame(&f, false);
    c.deliver_frame(f);
    let w = Frame::new(1, 0, FrameBody::WindowUpdate { window_size_increment: 0x7fff_ffff });
    let (out, stop) = c.receive_frame(&w, false);
    assert!(!stop);
    match &out[0].payload {
        FrameBody::RstStream { error_code } => assert_eq!(*error_code, ErrorCode::FlowControlError),
        _ => panic!("expected RST_STREAM"),
    }
    assert!(c.windows_in_range());
}

#[test]
fn oversized_frame_is_reported() {
    let mut c = connection(vec![]);
    let mut ping = Frame::new(0, 0, FrameBody::Ping { data: Bytes::from(vec![0; 8]) });
    ping.header.length = 20000;
    let (out, stop) = c.receive_frame(&ping, false);
    assert!(stop);
    assert_eq!(goaway_of(&out[0]), Some((0, ErrorCode::FrameSizeError)));
}

#[test]
fn read_outcomes() {
    match Connection::frame_of_read(Err(DeserializationError::BufReaderError)) {
        ReadStep::Stop(None) => {},
        other => panic!("unexpected {:?}", other),
    }
    match Connection::frame_of_read(Err(DeserializationError::Header(HeaderDeserializationError::BufferTooSmall))) {
        ReadStep::Stop(Some(f)) => assert_eq!(goaway_of(&f), Some((0, ErrorCode::ProtocolError))),
        other => panic!("unexpected {:?}", other),
    }
    match Connection::frame_of_read(Err(DeserializationError::Header(HeaderDeserializationError::UnknownFrameType(0x20)))) {
        ReadStep::Frame(f, unknown) => {
            assert!(unknown);
            match f.payload {
                FrameBody::Ping { data } => assert_eq!(data, Bytes::from(vec![0; 8])),
                _ => panic!("expected PING"),
            }
        },
        other => panic!("unexpected {:?}", other),
    }
    match Connection::frame_of_read(Err(DeserializationError::Body(BodyDeserializationError::UnknownErrorCode(99)))) {
        ReadStep::Frame(_, unknown) => assert!(!unknown),
        other => panic!("unexpected {:?}", other),
    }
    let f = Frame::new(3, 0, FrameBody::WindowUpdate { window_size_increment: 1 });
    match Connection::frame_of_read(Ok(f)) {
        ReadStep::Frame(f, unknown) => {
            assert!(!unknown);
            assert_eq!(f.header.stream_id, 3);
        },
        other => panic!("unexpected {:?}", other),
    }
}

#[test]
fn goaway_frame() {
    let f = Connection::close_with_error(ErrorCode::EnhanceYourCalm, 9);
    assert_eq!(f.header.stream_id, 0);
    assert_eq!(f.header.length, 8);
    assert_eq!(goaway_of(&f), Some((9, ErrorCode::EnhanceYourCalm)));
}

#[test]
fn header_names_are_lowered() {
    let mut resp = HTTPResponse::default();
    resp.set("X-ÄB", "1");
    resp.set("content-length", "9");
    simple_http::http2::connection::lowercase_header_names(&mut resp);
    assert_eq!(resp.headers.len(), 2);
    assert_eq!(resp.headers.entry(0).0, "content-length");
    assert_eq!(resp.headers.get("content-length"), Some(&HeaderVal::Single(String::from("9"))));
    assert_eq!(resp.headers.get("x-äb"), Some(&HeaderVal::Single(String::from("1"))));
}

#[test]
fn header_block_cut_into_frames() {
    let block = Bytes::from(vec![1, 2, 3, 4, 5]);
    let frames = header_block_frames(&block, 2, true, 3);
    assert_eq!(frames.len(), 3);
    assert_eq!(frames[0].header.frame_type, 1);
    assert_eq!(frames[0].header.flags, 0);
    assert_eq!(frames[1].header.frame_type, 9);
    assert_eq!(frames[1].header.flags, 0);
    assert_eq!(frames[2].header.flags, CONTINUATION_END_HEADERS);
    match &frames[2].payload {
        FrameBody::Continuation { hdr_block_frag } => assert_eq!(hdr_block_frag, &Bytes::from(vec![5])),
        _ => panic!("expected CONTINUATION"),
    }
    let one = header_block_frames(&block, 8, true, 3);
    assert_eq!(one.len(), 1);
    assert_eq!(one[0].header.flags, HEADERS_END_HEADERS);
    let no_body = header_block_frames(&block, 8, false, 3);
    assert_eq!(no_body[0].header.flags, HEADERS_END_STREAM | HEADERS_END_HEADERS);
    let no_body_cut = header_block_frames(&block, 2, false, 3);
    assert_eq!(no_body_cut[0].header.flags, HEADERS_END_STREAM);
    assert_eq!(no_body_cut[2].header.flags, CONTINUATION_END_HEADERS);
    assert!(header_block_frames(&Bytes::new(), 8, false, 3).is_empty());
}
