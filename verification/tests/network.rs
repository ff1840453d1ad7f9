use shardnet::error::ShardError;
use shardnet::network::{decode_invitation_text, encode_invitation_text};

#[test]
fn invitation_text_round_trips() {
    let json = r#"{"admin_peer_id":"12D3KooW","bootstrap_addr":"/ip4/127.0.0.1/tcp/4001","namespace":"shardnet-main","psk":[1,2,3,4]}"#;
    let encoded = encode_invitation_text(json);
    assert_eq!(decode_invitation_text(&encoded).unwrap(), json);
}

#[test]
fn invitation_text_is_standard_base64() {
    assert_eq!(encode_invitation_text("hi"), "aGk=");
    assert_eq!(encode_invitation_text("abc"), "YWJj");
}

#[test]
fn invalid_base64_is_refused() {
    assert_eq!(decode_invitation_text("not base64!").err(), Some(ShardError::InvalidBase64));
}

#[test]
fn invalid_utf8_is_refused() {
    assert_eq!(decode_invitation_text("/w==").err(), Some(ShardError::InvalidUtf8));
}
