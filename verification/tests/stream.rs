use bytes::Bytes;
use simple_http::http::{HeaderVal, HeadersMap};
use simple_http::http2::frames::{
    ErrorCode, Frame, FrameBody, CONTINUATION_END_HEADERS, DATA_END_STREAM, HEADERS_END_HEADERS, HEADERS_END_STREAM,
};
use simple_http::http2::stream::{
    compress_header, decompress_header, gather_header_list, has_bad_size_update, hdr_field_try_get_single_val, header_list, request_from_parts, ReqAssembler,
    ReqAssemblerState, Stream, StreamState,
};

fn single(s: &str) -> HeaderVal {
    HeaderVal::Single(String::from(s))
}

fn request_block(extra: &[(&str, &str)]) -> Bytes {
    let mut hdrs = HeadersMap::new();
    hdrs.insert(String::from(":method"), single("GET"));
    hdrs.insert(String::from(":path"), single("/"));
    hdrs.insert(String::from(":scheme"), single("http"));
    for (k, v) in extra {
        hdrs.insert(String::from(*k), single(v));
    }
    compress_header(&hdrs)
}

#[test]
fn compress_header_correctly() {
    let mut hdrs: HeadersMap = HeadersMap::new();
    hdrs.insert(String::from(":method"), HeaderVal::Single(String::from("GET")));
    hdrs.insert(String::from(":path"), HeaderVal::Single(String::from("/")));

    let compressed: Bytes = compress_header(&hdrs);

    // The headers are encoded by providing their index (with a bit flag
    // indicating that the indexed representation is used).
    assert_eq!(compressed, vec![2 | 0x80, 4 | 0x80]);
}

#[test]
fn decompress_header_correctly() {
    let mut hdrs: HeadersMap = HeadersMap::new();
    hdrs.insert(String::from(":method"), HeaderVal::Single(String::from("GET")));
    hdrs.insert(String::from(":path"), HeaderVal::Single(String::from("/")));

    let compressed: Bytes = compress_header(&hdrs);
    let decompressed: Result<HeadersMap, ErrorCode> = decompress_header(&compressed);

    assert_eq!(decompressed.unwrap(), hdrs);
}

#[test]
fn compression_sorts_the_fields() {
    // Set in the other order, the fields are still encoded `:method` first.
    let mut hdrs = HeadersMap::new();
    hdrs.insert(String::from(":path"), single("/"));
    hdrs.insert(String::from(":method"), single("GET"));
    assert_eq!(compress_header(&hdrs), vec![2 | 0x80, 4 | 0x80]);
    let list = header_list(&hdrs);
    assert_eq!(list, vec![(b":method".to_vec(), b"GET".to_vec()), (b":path".to_vec(), b"/".to_vec())]);
}

#[test]
fn fields_come_back_from_compression() {
    // Regular fields set before pseudo-headers, with values new to the table.
    let mut hdrs = HeadersMap::new();
    hdrs.insert(String::from("user-agent"), single("probe/1.0"));
    hdrs.insert(String::from("x-trace"), single("abc123"));
    hdrs.insert(String::from(":path"), single("/index.html"));
    hdrs.insert(String::from(":method"), single("POST"));
    hdrs.insert(String::from("accept"), single("*/*"));
    let block = compress_header(&hdrs);
    assert!(!block.is_empty());
    assert_eq!(decompress_header(&block), Ok(hdrs));
}

#[test]
fn decompress_rejects_a_bad_block() {
    // Index 0 is not in any table.
    assert_eq!(decompress_header(&[0x80]), Err(ErrorCode::CompressionError));
}

#[test]
fn gathering_merges_repeated_fields() {
    let list = vec![
        (b":method".to_vec(), b"GET".to_vec()),
        (b"accept".to_vec(), b"a".to_vec()),
        (b"accept".to_vec(), b"b".to_vec()),
        (b"accept".to_vec(), b"c".to_vec()),
    ];
    let m = gather_header_list(list).unwrap();
    assert_eq!(m.get(":method"), Some(&single("GET")));
    assert_eq!(
        m.get("accept"),
        Some(&HeaderVal::Multiple(vec![String::from("a"), String::from("b"), String::from("c")]))
    );
}

#[test]
fn gathering_rejects_a_late_pseudo_header() {
    let list = vec![(b"accept".to_vec(), b"a".to_vec()), (b":path".to_vec(), b"/".to_vec())];
    assert_eq!(gather_header_list(list), Err(ErrorCode::ProtocolError));
}

#[test]
fn gathering_rejects_bad_utf8() {
    let list = vec![(vec![0xff, 0xfe], b"a".to_vec())];
    assert_eq!(gather_header_list(list), Err(ErrorCode::CompressionError));
}

#[test]
fn single_value_lookup() {
    let mut hdrs = HeadersMap::new();
    hdrs.insert(String::from("a"), single("1"));
    hdrs.insert(String::from("b"), HeaderVal::Multiple(vec![String::from("1"), String::from("2")]));
    assert_eq!(hdr_field_try_get_single_val(&hdrs, "a"), Ok(String::from("1")));
    assert_eq!(hdr_field_try_get_single_val(&hdrs, "b"), Err(ErrorCode::ProtocolError));
    assert_eq!(hdr_field_try_get_single_val(&hdrs, "c"), Err(ErrorCode::ProtocolError));
}

#[test]
fn assembler_builds_a_request_from_headers_and_continuation() {
    let block = request_block(&[("user-agent", "test")]);
    let (first, rest) = block.split_at(2);
    let mut a = ReqAssembler::new();
    assert_eq!(a.get_state(), ReqAssemblerState::Init);
    a.recv_frame(Frame::new(1, 0, FrameBody::Headers { pad_length: None, priority: None, hdr_block_frag: Bytes::copy_from_slice(first) }))
        .unwrap();
    assert_eq!(a.get_state(), ReqAssemblerState::ReadingHeader);
    a.recv_frame(Frame::new(1, CONTINUATION_END_HEADERS, FrameBody::Continuation { hdr_block_frag: Bytes::copy_from_slice(rest) }))
        .unwrap();
    assert_eq!(a.get_state(), ReqAssemblerState::ReadingBody);
    a.recv_frame(Frame::new(1, 0, FrameBody::Data { pad_length: None, data: Bytes::from("ab") })).unwrap();
    a.recv_frame(Frame::new(1, DATA_END_STREAM, FrameBody::Data { pad_length: None, data: Bytes::from("c") })).unwrap();
    assert_eq!(a.get_state(), ReqAssemblerState::Done);
    let req = a.assemble().unwrap();
    assert_eq!(req.method, "GET");
    assert_eq!(req.path, "/");
    assert_eq!(req.protocol, "HTTP/2");
    assert_eq!(req.body, Some(Bytes::from("abc")));
    assert_eq!(req.headers.get("user-agent"), Some(&single("test")));
    assert!(req.trailers.is_none());
}

#[test]
fn assembler_refuses_other_frames_inside_a_header_block() {
    let block = request_block(&[]);
    let mut a = ReqAssembler::new();
    a.recv_frame(Frame::new(1, 0, FrameBody::Headers { pad_length: None, priority: None, hdr_block_frag: block })).unwrap();
    assert_eq!(a.recv_frame(Frame::new(1, 0, FrameBody::Data { pad_length: None, data: Bytes::new() })), Err(()));
}

#[test]
fn assembler_checks_content_length() {
    let block = request_block(&[("content-length", "5")]);
    let mut a = ReqAssembler::new();
    a.recv_frame(Frame::new(1, HEADERS_END_HEADERS, FrameBody::Headers { pad_length: None, priority: None, hdr_block_frag: block }))
        .unwrap();
    a.recv_frame(Frame::new(1, DATA_END_STREAM, FrameBody::Data { pad_length: None, data: Bytes::from("abc") })).unwrap();
    assert_eq!(a.assemble().unwrap_err(), ErrorCode::ProtocolError);
}

#[test]
fn assembler_refuses_upper_case_field_names() {
    let block = request_block(&[("User-Agent", "x")]);
    let mut a = ReqAssembler::new();
    a.recv_frame(Frame::new(1, HEADERS_END_STREAM, FrameBody::Headers { pad_length: None, priority: None, hdr_block_frag: block }))
        .unwrap();
    assert_eq!(a.assemble().unwrap_err(), ErrorCode::ProtocolError);
}

#[test]
fn assembler_needs_a_finished_request() {
    let a = ReqAssembler::new();
    assert_eq!(a.assemble().unwrap_err(), ErrorCode::ProtocolError);
}

#[test]
fn stream_state_machine_on_receive() {
    let mut s = Stream::new(1, 65535);
    assert_eq!(s.state, StreamState::Idle);
    assert!(!s.state.is_active());
    let block = request_block(&[]);
    let r = s.recv(Frame::new(1, HEADERS_END_HEADERS, FrameBody::Headers { pad_length: None, priority: None, hdr_block_frag: block }));
    assert!(matches!(r, Ok(None)));
    assert_eq!(s.state, StreamState::Open);
    assert!(s.state.is_active());
    let r = s.recv(Frame::new(1, DATA_END_STREAM, FrameBody::Data { pad_length: None, data: Bytes::new() }));
    let req = r.unwrap().unwrap();
    assert_eq!(req.method, "GET");
    assert_eq!(s.state, StreamState::HalfClosedRemote);
    assert!(s.state.is_active());
    // Data after the end of the stream
    let r = s.recv(Frame::new(1, 0, FrameBody::Data { pad_length: None, data: Bytes::new() }));
    assert_eq!(r.unwrap_err(), ErrorCode::StreamClosed);
    assert_eq!(s.state, StreamState::HalfClosedRemote);
}

#[test]
fn stream_idle_refuses_data() {
    let mut s = Stream::new(3, 10);
    let r = s.recv(Frame::new(3, 0, FrameBody::Data { pad_length: None, data: Bytes::new() }));
    assert_eq!(r.unwrap_err(), ErrorCode::ProtocolError);
    assert_eq!(s.state, StreamState::Idle);
}

#[test]
fn rst_stream_closes_and_closed_stays_closed() {
    let mut s = Stream::new(1, 10);
    s.recv(Frame::new(1, HEADERS_END_HEADERS, FrameBody::Headers { pad_length: None, priority: None, hdr_block_frag: request_block(&[]) }))
        .unwrap();
    // The state machine closes the stream; the request assembly, which awaits
    // DATA, refuses the frame.
    let r = s.recv(Frame::new(1, 0, FrameBody::RstStream { error_code: ErrorCode::Cancel }));
    assert_eq!(r.unwrap_err(), ErrorCode::ProtocolError);
    assert_eq!(s.state, StreamState::Closed);
    s.send(&Frame::new(1, HEADERS_END_STREAM, FrameBody::Headers { pad_length: None, priority: None, hdr_block_frag: Bytes::new() }));
    assert_eq!(s.state, StreamState::Closed);
    let r = s.recv(Frame::new(1, 0, FrameBody::Headers { pad_length: None, priority: None, hdr_block_frag: Bytes::new() }));
    assert_eq!(r.unwrap_err(), ErrorCode::StreamClosed);
}

#[test]
fn stream_send_closes_after_both_ends() {
    let mut s = Stream::new(1, 10);
    // HEADERS with END_STREAM half-closes an idle stream at once.
    let req = s.recv(Frame::new(1, HEADERS_END_STREAM, FrameBody::Headers { pad_length: None, priority: None, hdr_block_frag: request_block(&[]) }));
    assert_eq!(req.unwrap().unwrap().path, "/");
    assert_eq!(s.state, StreamState::HalfClosedRemote);
    let r = s.recv(Frame::new(1, DATA_END_STREAM, FrameBody::Data { pad_length: None, data: Bytes::new() }));
    assert_eq!(r.unwrap_err(), ErrorCode::StreamClosed);
    assert_eq!(s.state, StreamState::HalfClosedRemote);
    s.send(&Frame::new(1, HEADERS_END_HEADERS, FrameBody::Headers { pad_length: None, priority: None, hdr_block_frag: Bytes::new() }));
    assert_eq!(s.state, StreamState::HalfClosedRemote);
    s.send(&Frame::new(1, DATA_END_STREAM, FrameBody::Data { pad_length: None, data: Bytes::from("x") }));
    assert_eq!(s.state, StreamState::Closed);
}

#[test]
fn stream_window_lets_out_what_fits() {
    let mut s = Stream::new(5, 3);
    s.push_data(Bytes::from("hello")).unwrap();
    assert!(s.push_data(Bytes::from("again")).is_err());
    let frames = s.get_ready_data_frames(2).unwrap();
    assert_eq!(frames.len(), 2);
    match &frames[0].payload {
        FrameBody::Data { data, pad_length } => {
            assert_eq!(data, &Bytes::from("he"));
            assert!(pad_length.is_none());
        },
        _ => panic!("expected DATA"),
    }
    match &frames[1].payload {
        FrameBody::Data { data, .. } => assert_eq!(data, &Bytes::from("l")),
        _ => panic!("expected DATA"),
    }
    assert_eq!(frames[1].header.flags, 0);
    assert_eq!(s.window_size(), 0);
    assert!(s.get_ready_data_frames(2).is_none());
    assert_eq!(s.window_update(10), Ok(false));
    let frames = s.get_ready_data_frames(16384).unwrap();
    assert_eq!(frames.len(), 1);
    match &frames[0].payload {
        FrameBody::Data { data, .. } => assert_eq!(data, &Bytes::from("lo")),
        _ => panic!("expected DATA"),
    }
    assert_eq!(frames[0].header.flags, DATA_END_STREAM);
    assert_eq!(frames[0].header.stream_id, 5);
    assert_eq!(s.window_size(), 8);
}

#[test]
fn stream_window_overflow_is_refused() {
    let mut s = Stream::new(1, 2147483647);
    assert!(s.window_update(1).is_err());
    assert_eq!(s.window_size(), 2147483647);
    assert_eq!(s.window_update(-5), Ok(true));
    assert_eq!(s.window_size(), 2147483642);
}

fn fields(pairs: &[(&str, &str)]) -> HeadersMap {
    let mut m = HeadersMap::new();
    for (k, v) in pairs {
        m.insert(String::from(*k), single(v));
    }
    m
}

#[test]
fn request_parts_are_checked() {
    let base = [(":method", "POST"), (":scheme", "https"), (":path", "/upload")];
    let ok = request_from_parts(fields(&base), Some(Bytes::from("abc")), None).unwrap();
    assert_eq!(ok.method, "POST");
    assert_eq!(ok.path, "/upload");
    assert_eq!(ok.body, Some(Bytes::from("abc")));

    let no_scheme = fields(&[(":method", "GET"), (":path", "/")]);
    assert_eq!(request_from_parts(no_scheme, None, None).unwrap_err(), ErrorCode::ProtocolError);
    let empty_path = fields(&[(":method", "GET"), (":scheme", "http"), (":path", "")]);
    assert_eq!(request_from_parts(empty_path, None, None).unwrap_err(), ErrorCode::ProtocolError);
    let unknown_pseudo = fields(&[(":method", "GET"), (":scheme", "http"), (":path", "/"), (":foo", "x")]);
    assert_eq!(request_from_parts(unknown_pseudo, None, None).unwrap_err(), ErrorCode::ProtocolError);
    let connection = fields(&[(":method", "GET"), (":scheme", "http"), (":path", "/"), ("connection", "close")]);
    assert_eq!(request_from_parts(connection, None, None).unwrap_err(), ErrorCode::ProtocolError);
    let te_gzip = fields(&[(":method", "GET"), (":scheme", "http"), (":path", "/"), ("te", "gzip")]);
    assert_eq!(request_from_parts(te_gzip, None, None).unwrap_err(), ErrorCode::ProtocolError);
    let te_trailers = fields(&[(":method", "GET"), (":scheme", "http"), (":path", "/"), ("te", "trailers")]);
    assert!(request_from_parts(te_trailers, None, None).is_ok());
    let length = fields(&[(":method", "GET"), (":scheme", "http"), (":path", "/"), ("content-length", "+3")]);
    assert!(request_from_parts(length, Some(Bytes::from("abc")), None).is_ok());
    let bad_length = fields(&[(":method", "GET"), (":scheme", "http"), (":path", "/"), ("content-length", "3x")]);
    assert_eq!(request_from_parts(bad_length, Some(Bytes::from("abc")), None).unwrap_err(), ErrorCode::ProtocolError);

    let pseudo_trailer = fields(&[(":status", "200")]);
    assert_eq!(request_from_parts(fields(&base), None, Some(pseudo_trailer)).unwrap_err(), ErrorCode::ProtocolError);
    let trailer = fields(&[("checksum", "1")]);
    let with_trailer = request_from_parts(fields(&base), None, Some(trailer)).unwrap();
    assert_eq!(with_trailer.trailers.unwrap().get("checksum"), Some(&single("1")));
}

#[test]
fn data_of_exactly_one_frame_ends_the_stream() {
    let mut s = Stream::new(1, 10);
    s.push_data(Bytes::from("abcd")).unwrap();
    let frames = s.get_ready_data_frames(4).unwrap();
    assert_eq!(frames.len(), 1);
    assert_eq!(frames[0].header.flags, DATA_END_STREAM);
    assert_eq!(s.window_size(), 6);
    assert!(s.get_ready_data_frames(4).is_none());
}

#[test]
fn idle_stream_sending_headers_with_end_stream_half_closes() {
    let mut s = Stream::new(2, 10);
    s.send(&Frame::new(2, HEADERS_END_STREAM | HEADERS_END_HEADERS, FrameBody::Headers { pad_length: None, priority: None, hdr_block_frag: Bytes::new() }));
    assert_eq!(s.state, StreamState::HalfClosedLocal);
}

#[test]
fn cut_short_table_size_update_is_refused() {
    // `001` then a five-bit prefix of all ones, and no continuation octet.
    assert!(has_bad_size_update(&[0x3f]));
    assert_eq!(decompress_header(&[0x3f]), Err(ErrorCode::CompressionError));
    // After an indexed field, an update that needs a fifth continuation octet.
    let too_long = [0x82, 0x3f, 0xff, 0xff, 0xff, 0xff, 0x01];
    assert!(has_bad_size_update(&too_long));
    assert_eq!(decompress_header(&too_long), Err(ErrorCode::CompressionError));
    // A literal whose value happens to hold the byte 0x3f is no update.
    let literal = [0x00, 0x01, b'a', 0x01, 0x3f];
    assert!(!has_bad_size_update(&literal));
    let m = decompress_header(&literal).unwrap();
    assert_eq!(m.get("a"), Some(&single("?")));
}

#[test]
fn table_size_update_then_fields() {
    // Size update to 0, then `:method: GET` and `:path: /` by index.
    let block = [0x20, 0x82, 0x84];
    assert!(!has_bad_size_update(&block));
    let m = decompress_header(&block).unwrap();
    assert_eq!(m.get(":method"), Some(&single("GET")));
    assert_eq!(m.get(":path"), Some(&single("/")));
    // A size update whose integer continues: 31 + 1 = 32.
    assert!(!has_bad_size_update(&[0x3f, 0x01, 0x82]));
}
