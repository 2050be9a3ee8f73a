use bytes::Bytes;
use simple_http::http2::frames::error::{BodyDeserializationError, DeserializationError, HeaderDeserializationError};
use simple_http::http2::frames::{
    ErrorCode, Frame, FrameBody, FrameHeader, HeadersBodyPriority, DATA_PADDED, HEADERS_PRIORITY, PING_ACK, SETTINGS_ACK,
};
use simple_http::http2::settings::{SettingParam, SettingsIdentifier};

fn encode(f: Frame) -> Bytes {
    f.try_into_bytes().unwrap()
}

fn decode(b: &Bytes) -> Result<Frame, DeserializationError> {
    let header = FrameHeader::try_from_bytes(b.slice(0..9)).map_err(DeserializationError::Header)?;
    let payload = b.slice(9..);
    assert_eq!(payload.len(), header.length);
    assert!(FrameBody::can_parse(&payload, &header));
    Frame::try_from_parts(header, payload)
}

#[test]
fn settings_frame_bytes() {
    let f = Frame::new(
        0,
        0,
        FrameBody::Settings(vec![SettingParam { identifier: SettingsIdentifier::MaxFrameSize, value: 16384 }]),
    );
    assert!(f.is_valid().is_ok());
    assert_eq!(encode(f), vec![0, 0, 6, 4, 0, 0, 0, 0, 0, 0, 5, 0, 0, 0x40, 0]);
}

#[test]
fn settings_ack_bytes() {
    let f = Frame::new(0, SETTINGS_ACK, FrameBody::Settings(vec![]));
    assert_eq!(encode(f), vec![0, 0, 0, 4, 1, 0, 0, 0, 0]);
}

#[test]
fn ping_round_trip() {
    let f = Frame::new(0, PING_ACK, FrameBody::Ping { data: Bytes::from(vec![1, 2, 3, 4, 5, 6, 7, 8]) });
    let g = decode(&encode(f)).unwrap();
    assert_eq!(g.header, FrameHeader { length: 8, frame_type: 6, flags: PING_ACK, stream_id: 0 });
    match g.payload {
        FrameBody::Ping { data } => assert_eq!(data, Bytes::from(vec![1, 2, 3, 4, 5, 6, 7, 8])),
        _ => panic!("expected PING"),
    }
}

#[test]
fn padded_data_round_trip() {
    let f = Frame::new(3, DATA_PADDED, FrameBody::Data { pad_length: Some(2), data: Bytes::from("abc") });
    assert_eq!(f.header.length, 6);
    let b = encode(f);
    assert_eq!(&b[9..], &[2, b'a', b'b', b'c', 0, 0][..]);
    let g = decode(&b).unwrap();
    match g.payload {
        FrameBody::Data { pad_length, data } => {
            assert_eq!(pad_length, Some(2));
            assert_eq!(data, Bytes::from("abc"));
        },
        _ => panic!("expected DATA"),
    }
}

#[test]
fn unpadded_data_keeps_the_whole_payload() {
    let f = Frame::new(1, 0, FrameBody::Data { pad_length: None, data: Bytes::from("hello") });
    let g = decode(&encode(f)).unwrap();
    match g.payload {
        FrameBody::Data { pad_length, data } => {
            assert_eq!(pad_length, None);
            assert_eq!(data, Bytes::from("hello"));
        },
        _ => panic!("expected DATA"),
    }
}

#[test]
fn headers_with_priority_round_trip() {
    let p = HeadersBodyPriority { e: true, stream_dep: 7, weight: 200 };
    let f = Frame::new(
        9,
        HEADERS_PRIORITY,
        FrameBody::Headers { pad_length: None, priority: Some(p), hdr_block_frag: Bytes::from(vec![0x82]) },
    );
    assert_eq!(f.header.length, 6);
    let g = decode(&encode(f)).unwrap();
    assert_eq!(g.header.stream_id, 9);
    match g.payload {
        FrameBody::Headers { pad_length, priority, hdr_block_frag } => {
            assert_eq!(pad_length, None);
            assert_eq!(priority, Some(p));
            assert_eq!(hdr_block_frag, Bytes::from(vec![0x82]));
        },
        _ => panic!("expected HEADERS"),
    }
}

#[test]
fn goaway_and_window_update_round_trip() {
    let f = Frame::new(
        0,
        0,
        FrameBody::GoAway { last_stream_id: 5, error_code: ErrorCode::FlowControlError, additional_debug_data: Bytes::from("x") },
    );
    let b = encode(f);
    assert_eq!(&b[9..], &[0, 0, 0, 5, 0, 0, 0, 3, b'x'][..]);
    match decode(&b).unwrap().payload {
        FrameBody::GoAway { last_stream_id, error_code, additional_debug_data } => {
            assert_eq!(last_stream_id, 5);
            assert_eq!(error_code, ErrorCode::FlowControlError);
            assert_eq!(additional_debug_data, Bytes::from("x"));
        },
        _ => panic!("expected GOAWAY"),
    }
    let w = Frame::new(1, 0, FrameBody::WindowUpdate { window_size_increment: 1000 });
    match decode(&encode(w)).unwrap().payload {
        FrameBody::WindowUpdate { window_size_increment } => assert_eq!(window_size_increment, 1000),
        _ => panic!("expected WINDOW_UPDATE"),
    }
}

#[test]
fn rst_stream_and_priority_round_trip() {
    let r = Frame::new(3, 0, FrameBody::RstStream { error_code: ErrorCode::Cancel });
    match decode(&encode(r)).unwrap().payload {
        FrameBody::RstStream { error_code } => assert_eq!(error_code, ErrorCode::Cancel),
        _ => panic!("expected RST_STREAM"),
    }
    let p = Frame::new(3, 0, FrameBody::Priority { e: false, stream_dep: 1, weight: 15 });
    match decode(&encode(p)).unwrap().payload {
        FrameBody::Priority { e, stream_dep, weight } => {
            assert!(!e);
            assert_eq!(stream_dep, 1);
            assert_eq!(weight, 15);
        },
        _ => panic!("expected PRIORITY"),
    }
}

#[test]
fn header_needs_nine_bytes() {
    assert_eq!(
        FrameHeader::try_from_bytes(Bytes::from(vec![0, 0, 0, 4])),
        Err(HeaderDeserializationError::BufferTooSmall)
    );
    assert_eq!(
        FrameHeader::try_from_bytes(Bytes::from(vec![0; 10])),
        Err(HeaderDeserializationError::BufferTooSmall)
    );
}

#[test]
fn unknown_frame_type_is_reported() {
    assert_eq!(
        FrameHeader::try_from_bytes(Bytes::from(vec![0, 0, 0, 0x20, 0, 0, 0, 0, 1])),
        Err(HeaderDeserializationError::UnknownFrameType(0x20))
    );
}

#[test]
fn header_drops_the_reserved_bit() {
    let h = FrameHeader::try_from_bytes(Bytes::from(vec![0, 1, 2, 1, 4, 0x80, 0, 0, 3])).unwrap();
    assert_eq!(h, FrameHeader { length: 258, frame_type: 1, flags: 4, stream_id: 3 });
}

#[test]
fn unknown_settings_identifier_is_reported() {
    let header = FrameHeader { length: 6, frame_type: 4, flags: 0, stream_id: 0 };
    let r = Frame::try_from_parts(header, Bytes::from(vec![0, 9, 0, 0, 0, 1]));
    assert_eq!(r.unwrap_err(), DeserializationError::Body(BodyDeserializationError::UnknownSettingsIdentifier(9)));
}

#[test]
fn unknown_error_code_is_reported() {
    let header = FrameHeader { length: 4, frame_type: 3, flags: 0, stream_id: 1 };
    let r = Frame::try_from_parts(header, Bytes::from(vec![0, 0, 0, 0x42]));
    assert_eq!(r.unwrap_err(), DeserializationError::Body(BodyDeserializationError::UnknownErrorCode(0x42)));
}

#[test]
fn short_payloads_cannot_be_parsed() {
    let header = FrameHeader { length: 3, frame_type: 6, flags: 0, stream_id: 0 };
    assert!(!FrameBody::can_parse(&Bytes::from(vec![1, 2, 3]), &header));
    let padded = FrameHeader { length: 2, frame_type: 0, flags: DATA_PADDED, stream_id: 1 };
    assert!(!FrameBody::can_parse(&Bytes::from(vec![5, 0]), &padded));
}

#[test]
fn frame_validity_compares_header_and_payload() {
    let mut f = Frame::new(1, 0, FrameBody::Data { pad_length: None, data: Bytes::from("abc") });
    assert!(f.is_valid().is_ok());
    f.header.length = 2;
    assert!(f.is_valid().is_err());
}

#[test]
fn error_codes() {
    assert_eq!(ErrorCode::HTTP1_1Required.code(), 0xd);
    assert_eq!(ErrorCode::try_from_code(0x8), Some(ErrorCode::Cancel));
    assert_eq!(ErrorCode::try_from_code(0xe), None);
}

#[test]
fn encoding_length_is_header_plus_size() {
    let frames = vec![
        Frame::new(1, DATA_PADDED, FrameBody::Data { pad_length: Some(3), data: Bytes::from("abc") }),
        Frame::new(0, 0, FrameBody::Settings(vec![SettingParam { identifier: SettingsIdentifier::EnablePush, value: 0 }; 3])),
        Frame::new(1, 0, FrameBody::GoAway { last_stream_id: 1, error_code: ErrorCode::NoError, additional_debug_data: Bytes::from("dbg") }),
        Frame::new(1, 0, FrameBody::PushPromise { pad_length: None, promised_stream_id: 2, hdr_block_frag: Bytes::from(vec![1, 2]) }),
    ];
    for f in frames {
        let size = f.header.length;
        assert_eq!(encode(f).len(), 9 + size);
    }
}

#[test]
fn payload_is_written_after_what_the_buffer_holds() {
    let bodies = vec![
        FrameBody::Data { pad_length: Some(2), data: Bytes::from("hello") },
        FrameBody::Ping { data: Bytes::from(vec![9, 8, 7, 6, 5, 4, 3, 2]) },
        FrameBody::WindowUpdate { window_size_increment: 77 },
        FrameBody::Continuation { hdr_block_frag: Bytes::from(vec![0x82, 0x84]) },
    ];
    for body in bodies {
        let mut buf = bytes::BytesMut::new();
        buf.extend_from_slice(b"prefix");
        assert_eq!(body.try_put_buf(&mut buf), Ok(()));
        assert_eq!(buf.len(), 6 + body.size());
        assert_eq!(&buf[..6], b"prefix");
    }
}
