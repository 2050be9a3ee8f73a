use bytes::Bytes;
use simple_http::http::{HTTPRequest, HTTPResponse};
use simple_http::http2::frames::error::DeserializationError;
use simple_http::http2::frames::{Frame, FrameBody};
use simple_http::http2::server::{initial_peer_settings, is_client_preface, server_preface, server_settings, Server};
use simple_http::http2::settings::{SettingParam, SettingsIdentifier};

fn handler(_req: HTTPRequest, _resp: &mut HTTPResponse) {}

#[test]
fn connections_are_numbered() {
    let mut s = Server::new(handler as fn(HTTPRequest, &mut HTTPResponse));
    assert_eq!(s.connection_count, 0);
    assert_eq!(s.next_connection_id(), 0);
    assert_eq!(s.next_connection_id(), 1);
    assert_eq!(s.connection_count, 2);
    s.connection_count = usize::MAX;
    assert_eq!(s.next_connection_id(), usize::MAX);
    assert_eq!(s.connection_count, 0);
}

#[test]
fn client_preface() {
    assert!(is_client_preface(b"PRI * HTTP/2.0\r\n\r\nSM\r\n\r\n".to_vec()));
    assert!(!is_client_preface(b"GET / HTTP/1.1\r\n\r\nSM\r\n\r\n".to_vec()));
    assert!(!is_client_preface(vec![0xff; 24]));
}

#[test]
fn first_frame_must_be_settings() {
    let params = vec![SettingParam { identifier: SettingsIdentifier::MaxFrameSize, value: 20000 }];
    let f = Frame::new(0, 0, FrameBody::Settings(params.clone()));
    assert_eq!(initial_peer_settings(Ok(f)), Some(params));
    let ping = Frame::new(0, 0, FrameBody::Ping { data: Bytes::from(vec![0; 8]) });
    assert_eq!(initial_peer_settings(Ok(ping)), None);
    let mut bad = Frame::new(0, 0, FrameBody::Settings(vec![]));
    bad.header.length = 6;
    assert_eq!(initial_peer_settings(Ok(bad)), None);
    assert_eq!(initial_peer_settings(Err(DeserializationError::BufReaderError)), None);
}

#[test]
fn server_preface_bytes() {
    let s = server_settings();
    assert_eq!(s.get(SettingsIdentifier::EnablePush), Some(0));
    let (preface, ack) = server_preface(&s);
    assert_eq!(ack, Bytes::from(vec![0, 0, 0, 4, 1, 0, 0, 0, 0]));
    assert_eq!(&preface[..9], &[0, 0, 36, 4, 0, 0, 0, 0, 0][..]);
    // EnablePush = 0 is the second parameter.
    assert_eq!(&preface[15..21], &[0, 2, 0, 0, 0, 0][..]);
}
