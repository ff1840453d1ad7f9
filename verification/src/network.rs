use vstd::prelude::*;

use crate::error::ShardError;
use base64::engine::general_purpose::STANDARD;
use base64::Engine;
use vstd::utf8::{decode_utf8, encode_utf8, valid_utf8};

verus! {

/// An elastic onboarding invitation.
#[derive(Debug, Clone)]
pub struct Invitation {
    pub admin_peer_id: String,
    pub bootstrap_addr: String,
    pub namespace: String,
    pub psk: Vec<u8>,
}

/// The quorum handshake request.
#[derive(Debug, Clone, PartialEq, Eq)]
pub struct QuorumRequest {
    pub file_id: String,
    /// Proof of being on the access list.
    pub signature: Vec<u8>,
}

/// The quorum handshake response.
#[derive(Debug, Clone, PartialEq, Eq)]
pub struct QuorumResponse {
    /// The requested key share, when authorized.
    pub share: Option<Vec<u8>>,
}

// ---------------------------------------------------------------------------
// Base64 (base64) and UTF-8 (std)
// ---------------------------------------------------------------------------

#[verifier::external_type_specification]
#[verifier::external_body]
pub struct ExBase64DecodeError(base64::DecodeError);

#[verifier::external_type_specification]
#[verifier::external_body]
pub struct ExFromUtf8Error(std::string::FromUtf8Error);

/// The character of the standard base64 alphabet for a 6-bit value.
pub open spec fn base64_char(v: int) -> char {
    if v < 26 {
        (65 + v) as char
    } else if v < 52 {
        (97 + v - 26) as char
    } else if v < 62 {
        (48 + v - 52) as char
    } else if v == 62 {
        '+'
    } else {
        '/'
    }
}

/// Standard base64 (RFC 4648 alphabet, `=` padding) of `bytes`.
pub open spec fn base64_standard(bytes: Seq<u8>) -> Seq<char>
    decreases bytes.len(),
{
    let b0 = bytes[0] as int;
    let b1 = bytes[1] as int;
    let b2 = bytes[2] as int;
    if bytes.len() == 0 {
        Seq::empty()
    } else if bytes.len() == 1 {
        seq![base64_char(b0 / 4), base64_char((b0 % 4) * 16), '=', '=']
    } else if bytes.len() == 2 {
        seq![
            base64_char(b0 / 4),
            base64_char((b0 % 4) * 16 + b1 / 16),
            base64_char((b1 % 16) * 4),
            '=',
        ]
    } else {
        seq![
            base64_char(b0 / 4),
            base64_char((b0 % 4) * 16 + b1 / 16),
            base64_char((b1 % 16) * 4 + b2 / 64),
            base64_char(b2 % 64),
        ] + base64_standard(bytes.skip(3))
    }
}

/// The bytes that the standard base64 engine decodes from `text`, or `None`
/// when `text` is not canonical padded base64.
pub uninterp spec fn base64_decoding(text: Seq<char>) -> Option<Seq<u8>>;

/// Calls `base64::engine::general_purpose::STANDARD.encode`. Claimed: the
/// text is standard padded base64 of `bytes`, and the same engine decodes it
/// back to `bytes`.
#[verifier::external_body]
fn base64_encode(bytes: &[u8]) -> (text: String)
    ensures
        text@ == base64_standard(bytes@),
        base64_decoding(text@) == Some(bytes@),
{
    STANDARD.encode(bytes)
}

/// Calls `base64::engine::general_purpose::STANDARD.decode`. Claimed: it
/// succeeds exactly when `base64_decoding` is defined, with those bytes.
#[verifier::external_body]
fn base64_decode(text: &str) -> (res: Result<Vec<u8>, base64::DecodeError>)
    ensures
        res is Ok <==> base64_decoding(text@) is Some,
        res matches Ok(bytes) ==> Some(bytes@) == base64_decoding(text@),
{
    STANDARD.decode(text)
}

/// Calls `String::from_utf8`. Claimed, as std documents: it succeeds exactly
/// on valid UTF-8, with the characters those bytes encode.
#[verifier::external_body]
fn utf8_to_string(bytes: Vec<u8>) -> (res: Result<String, std::string::FromUtf8Error>)
    ensures
        res is Ok <==> valid_utf8(bytes@),
        res matches Ok(text) ==> text@ == decode_utf8(bytes@),
{
    String::from_utf8(bytes)
}

// ---------------------------------------------------------------------------
// Invitation encoding
// ---------------------------------------------------------------------------

/// The invitation text that a base64 string carries.
pub open spec fn invitation_text(encoded: Seq<char>) -> Result<Seq<char>, ShardError> {
    match base64_decoding(encoded) {
        None => Err(ShardError::InvalidBase64),
        Some(bytes) => if valid_utf8(bytes) {
            Ok(decode_utf8(bytes))
        } else {
            Err(ShardError::InvalidUtf8)
        },
    }
}

/// The view of a text result.
pub open spec fn text_result(res: Result<String, ShardError>) -> Result<Seq<char>, ShardError> {
    match res {
        Ok(s) => Ok(s@),
        Err(e) => Err(e),
    }
}

/// Encodes an invitation's text (its JSON form) as base64 for easy sharing.
pub fn encode_invitation_text(text: &str) -> (encoded: String)
    ensures
        encoded@ == base64_standard(encode_utf8(text@)),
        invitation_text(encoded@) == Ok::<Seq<char>, ShardError>(text@),
{
    proof {
        vstd::utf8::encode_utf8_valid_utf8(text@);
        vstd::utf8::encode_utf8_decode_utf8(text@);
    }
    base64_encode(text.as_bytes())
}

/// Decodes an invitation's text from a base64 string.
pub fn decode_invitation_text(encoded: &str) -> (res: Result<String, ShardError>)
    ensures
        text_result(res) == invitation_text(encoded@),
{
    let bytes = match base64_decode(encoded) {
        Ok(bytes) => bytes,
        Err(_) => {
            return Err(ShardError::InvalidBase64);
        },
    };
    match utf8_to_string(bytes) {
        Ok(text) => Ok(text),
        Err(_) => Err(ShardError::InvalidUtf8),
    }
}

} // verus!
