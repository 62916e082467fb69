use base64::engine::general_purpose::{STANDARD, URL_SAFE_NO_PAD};
use base64::Engine as _;

use axon::peer_token::{decode, derive_agent_id_from_pubkey_base64, encode, TokenError};

fn expect_err<T>(r: Result<T, TokenError>) -> TokenError {
    match r {
        Ok(_) => panic!("expected an error"),
        Err(e) => e,
    }
}

#[test]
fn peer_token_roundtrip_encodes_and_decodes() {
    let pubkey = STANDARD.encode([7u8; 32]);
    let token = encode(&pubkey, "127.0.0.1:7100").expect("encode");
    assert!(token.starts_with("axon://"));

    let decoded = decode(&token).expect("decode");
    assert_eq!(decoded.pubkey, pubkey);
    assert_eq!(decoded.addr, "127.0.0.1:7100");
    assert!(decoded.agent_id.as_str().starts_with("ed25519."));
}

#[test]
fn peer_token_decode_rejects_bad_scheme() {
    let err = expect_err(decode("http://abc@127.0.0.1:7100"));
    assert!(err.message().contains("must start"));
}

#[test]
fn peer_token_decode_rejects_invalid_pubkey_b64url() {
    let err = expect_err(decode("axon://@@127.0.0.1:7100"));
    assert!(err.message().contains("empty"));
}

#[test]
fn peer_token_decode_rejects_invalid_pubkey_length() {
    let short = URL_SAFE_NO_PAD.encode([1u8; 8]);
    let err = expect_err(decode(&format!("axon://{short}@127.0.0.1:7100")));
    assert!(err.message().contains("32 bytes"));
}

#[test]
fn peer_token_encode_rejects_malformed_addr() {
    let pubkey = STANDARD.encode([7u8; 32]);
    let err = expect_err(encode(&pubkey, "host-without-port"));
    assert!(err.message().contains("host:port"));
}

#[test]
fn peer_token_derive_agent_id_from_base64_rejects_wrong_length() {
    let pubkey = STANDARD.encode([1u8; 8]);
    let err = expect_err(derive_agent_id_from_pubkey_base64(&pubkey));
    assert!(err.message().contains("32 bytes"));
}

#[test]
fn tests_roundtrip_encodes_and_decodes() {
    let pubkey = STANDARD.encode([7u8; 32]);
    let token = encode(&pubkey, "127.0.0.1:7100").expect("encode");
    assert!(token.starts_with("axon://"));

    let decoded = decode(&token).expect("decode");
    assert_eq!(decoded.pubkey, pubkey);
    assert_eq!(decoded.addr, "127.0.0.1:7100");
    assert!(decoded.agent_id.as_str().starts_with("ed25519."));
}

#[test]
fn tests_decode_rejects_bad_scheme() {
    let err = expect_err(decode("http://abc@127.0.0.1:7100"));
    assert!(err.message().contains("must start"));
}

#[test]
fn tests_decode_rejects_invalid_pubkey_b64url() {
    let err = expect_err(decode("axon://@@127.0.0.1:7100"));
    assert!(err.message().contains("empty"));
}

#[test]
fn tests_decode_rejects_invalid_pubkey_length() {
    let short = URL_SAFE_NO_PAD.encode([1u8; 8]);
    let err = expect_err(decode(&format!("axon://{short}@127.0.0.1:7100")));
    assert!(err.message().contains("32 bytes"));
}

#[test]
fn tests_encode_rejects_malformed_addr() {
    let pubkey = STANDARD.encode([7u8; 32]);
    let err = expect_err(encode(&pubkey, "host-without-port"));
    assert!(err.message().contains("host:port"));
}

#[test]
fn tests_derive_agent_id_from_base64_rejects_wrong_length() {
    let pubkey = STANDARD.encode([1u8; 8]);
    let err = expect_err(derive_agent_id_from_pubkey_base64(&pubkey));
    assert!(err.message().contains("32 bytes"));
}

#[test]
fn key_length_errors_name_the_decoded_length() {
    let short = STANDARD.encode([1u8; 8]);
    let err = expect_err(derive_agent_id_from_pubkey_base64(&short));
    assert_eq!(err, TokenError::InvalidKeyLength(8));
    assert_eq!(err.message(), "peer token pubkey must decode to 32 bytes, got 8");
    let err = expect_err(derive_agent_id_from_pubkey_base64("!!!"));
    assert_eq!(err.message(), "pubkey is not valid base64");
    assert_eq!(TokenError::InvalidKeyLength(123).message(), "peer token pubkey must decode to 32 bytes, got 123");
}

#[test]
fn invalid_port_errors_quote_the_port() {
    let pubkey = STANDARD.encode([7u8; 32]);
    let err = expect_err(encode(&pubkey, "host:abc"));
    assert_eq!(err, TokenError::InvalidPort("abc".to_string()));
    assert_eq!(err.message(), "peer token addr has invalid port 'abc'");
    let err = expect_err(encode(&pubkey, "127.0.0.1:70000"));
    assert_eq!(err.message(), "peer token addr has invalid port '70000'");
}
