use simple_http::http2::frames::ErrorCode;
use simple_http::http2::settings::{SettingParam, SettingsIdentifier, SettingsMap};

fn param(identifier: SettingsIdentifier, value: u32) -> SettingParam {
    SettingParam { identifier, value }
}

#[test]
fn default_settings() {
    let s = SettingsMap::default();
    assert_eq!(s.get(SettingsIdentifier::HeaderTableSize), Some(4096));
    assert_eq!(s.get(SettingsIdentifier::EnablePush), Some(1));
    assert_eq!(s.get(SettingsIdentifier::MaxConcurrentStreams), Some(128));
    assert_eq!(s.get(SettingsIdentifier::InitialWindowSize), Some(65535));
    assert_eq!(s.get(SettingsIdentifier::MaxFrameSize), Some(16384));
    assert_eq!(s.get(SettingsIdentifier::MaxHeaderListSize), Some(u32::MAX));
}

#[test]
fn set_then_get() {
    let mut s = SettingsMap::default();
    assert_eq!(s.set(SettingsIdentifier::MaxFrameSize, 20000), Ok(()));
    assert_eq!(s.get(SettingsIdentifier::MaxFrameSize), Some(20000));
}

#[test]
fn illegal_values_are_refused() {
    let mut s = SettingsMap::default();
    assert_eq!(s.set(SettingsIdentifier::EnablePush, 2), Err(ErrorCode::ProtocolError));
    assert_eq!(s.set(SettingsIdentifier::InitialWindowSize, 2147483648), Err(ErrorCode::FlowControlError));
    assert_eq!(s.set(SettingsIdentifier::MaxFrameSize, 16383), Err(ErrorCode::ProtocolError));
    assert_eq!(s.set(SettingsIdentifier::MaxFrameSize, 16777216), Err(ErrorCode::ProtocolError));
    assert_eq!(s.get(SettingsIdentifier::EnablePush), Some(1));
    assert_eq!(s.get(SettingsIdentifier::MaxFrameSize), Some(16384));
}

#[test]
fn value_ranges() {
    assert_eq!(SettingsIdentifier::EnablePush.is_valid_value(1), Ok(1));
    assert_eq!(SettingsIdentifier::MaxFrameSize.is_valid_value(16777215), Ok(16777215));
    assert_eq!(SettingsIdentifier::HeaderTableSize.is_valid_value(u32::MAX), Ok(u32::MAX));
    assert_eq!(SettingsIdentifier::InitialWindowSize.is_valid_value(2147483647), Ok(2147483647));
}

#[test]
fn update_with_vec_stops_at_the_first_illegal_value() {
    let mut s = SettingsMap::default();
    let r = s.update_with_vec(&vec![
        param(SettingsIdentifier::HeaderTableSize, 100),
        param(SettingsIdentifier::EnablePush, 7),
        param(SettingsIdentifier::MaxConcurrentStreams, 1),
    ]);
    assert_eq!(r, Err(ErrorCode::ProtocolError));
    assert_eq!(s.get(SettingsIdentifier::HeaderTableSize), Some(100));
    assert_eq!(s.get(SettingsIdentifier::MaxConcurrentStreams), Some(128));
}

#[test]
fn update_with_legal_params_is_update_with_their_map() {
    let ps = vec![
        param(SettingsIdentifier::InitialWindowSize, 10),
        param(SettingsIdentifier::InitialWindowSize, 20),
        param(SettingsIdentifier::MaxFrameSize, 30000),
    ];
    let mut a = SettingsMap::default();
    assert_eq!(a.update_with_vec(&ps), Ok(()));
    let mut b = SettingsMap::default();
    b.update(SettingsMap::from_params(ps));
    assert_eq!(a.to_params(), b.to_params());
}

#[test]
fn params_round_trip() {
    let mut s = SettingsMap::default();
    s.set(SettingsIdentifier::EnablePush, 0).unwrap();
    let ps = s.clone().to_params();
    assert_eq!(ps.len(), 6);
    assert_eq!(ps[0], param(SettingsIdentifier::HeaderTableSize, 4096));
    assert_eq!(ps[1], param(SettingsIdentifier::EnablePush, 0));
    let back = SettingsMap::from_params(ps);
    assert_eq!(back.to_params(), s.to_params());
}

#[test]
fn identifier_codes() {
    assert_eq!(SettingsIdentifier::MaxHeaderListSize.code(), 6);
    assert_eq!(SettingsIdentifier::try_from_code(4), Some(SettingsIdentifier::InitialWindowSize));
    assert_eq!(SettingsIdentifier::try_from_code(7), None);
    assert_eq!(SettingsIdentifier::try_from_code(0), None);
}

#[test]
fn params_name_each_identifier_once() {
    let mut s = SettingsMap::from_params(vec![
        param(SettingsIdentifier::MaxFrameSize, 20000),
        param(SettingsIdentifier::HeaderTableSize, 1),
        param(SettingsIdentifier::MaxFrameSize, 30000),
    ]);
    s.update(SettingsMap::from_params(vec![param(SettingsIdentifier::EnablePush, 0)]));
    let ps = s.to_params();
    assert_eq!(
        ps,
        vec![
            param(SettingsIdentifier::HeaderTableSize, 1),
            param(SettingsIdentifier::EnablePush, 0),
            param(SettingsIdentifier::MaxFrameSize, 30000),
        ]
    );
}

#[test]
fn settings_stay_complete_and_legal() {
    let mut s = SettingsMap::default();
    let _ = s.set(SettingsIdentifier::InitialWindowSize, u32::MAX);
    let _ = s.update_with_vec(&vec![param(SettingsIdentifier::MaxFrameSize, 1), param(SettingsIdentifier::EnablePush, 0)]);
    let ps = s.clone().to_params();
    assert_eq!(ps.len(), 6);
    for p in &ps {
        assert!(p.identifier.is_valid_value(p.value).is_ok());
    }
    assert_eq!(s.get(SettingsIdentifier::InitialWindowSize), Some(65535));
    assert_eq!(s.get(SettingsIdentifier::MaxFrameSize), Some(16384));
    assert_eq!(s.get(SettingsIdentifier::EnablePush), Some(1));
}
